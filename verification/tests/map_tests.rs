use intmap::{Entry, IntMap};

#[test]
fn new_map_is_empty_with_four_buckets() {
    let map: IntMap<u64> = IntMap::new();
    assert_eq!(map.capacity(), 4);
    assert_eq!(map.len(), 0);
    assert!(map.is_empty());
    assert_eq!(map.load(), 0);
    assert!(map.assert_count());
}

#[test]
fn with_capacity_rounds_up_to_power_of_two() {
    let map: IntMap<u64> = IntMap::with_capacity(20);
    let cap = map.capacity();
    assert_eq!(cap, 32);
    assert!(cap >= 20);
    assert!(cap.is_power_of_two());
}

#[test]
fn insert_then_get_round_trip() {
    let mut map: IntMap<u64> = IntMap::new();
    assert!(map.insert(21, 42));
    assert_eq!(map.get(21), Some(&42));
    assert!(map.contains_key(21));
    assert_eq!(map.len(), 1);
}

#[test]
fn insert_does_not_overwrite() {
    let mut map: IntMap<&str> = IntMap::new();
    assert!(map.insert(21, "first"));
    assert!(!map.insert(21, "second"));
    assert_eq!(map.get(21), Some(&"first"));
    assert_eq!(map.len(), 1);
}

#[test]
fn remove_returns_value_then_key_is_absent() {
    let mut map: IntMap<u64> = IntMap::new();
    map.insert(21, 42);
    assert_eq!(map.remove(21), Some(42));
    assert_eq!(map.get(21), None);
    assert!(!map.contains_key(21));
    assert_eq!(map.remove(21), None);
    assert_eq!(map.len(), 0);
}

#[test]
fn get_mut_updates_in_place() {
    let mut map: IntMap<u64> = IntMap::new();
    map.insert(21, 42);
    {
        let val = map.get_mut(21).unwrap();
        *val += 1;
    }
    assert_eq!(map.get(21), Some(&43));
    assert!(map.get_mut(99).is_none());
}

#[test]
fn hundred_inserts_survive_resizing() {
    let mut map: IntMap<u64> = IntMap::new();
    for k in 0..100u64 {
        assert!(map.insert(k, k * 10));
    }
    assert_eq!(map.len(), 100);
    assert!(map.capacity() > 4);
    for k in 0..100u64 {
        assert_eq!(map.get(k), Some(&(k * 10)));
    }
    assert!(map.assert_count());
}

#[test]
fn clear_twice_leaves_empty_map() {
    let mut map: IntMap<u64> = IntMap::new();
    for k in 0..10u64 {
        map.insert(k, k);
    }
    let cap = map.capacity();
    map.clear();
    assert_eq!(map.len(), 0);
    assert!(map.is_empty());
    assert_eq!(map.capacity(), cap);
    map.clear();
    assert_eq!(map.len(), 0);
    assert!(map.is_empty());
    assert_eq!(map.get(3), None);
}

#[test]
fn entry_counts_occurrences() {
    let mut counters: IntMap<u64> = IntMap::new();
    for &number in &[10u64, 30, 10, 40, 50, 50, 60, 50] {
        let e = counters.entry(number);
        let counter = match e {
            Entry::Occupied { .. } => counters.entry_into_mut(e),
            Entry::Vacant { .. } => counters.entry_insert(e, 0),
        };
        *counter += 1;
    }
    assert_eq!(counters.get(10), Some(&2));
    assert_eq!(counters.get(20), None);
    assert_eq!(counters.get(30), Some(&1));
    assert_eq!(counters.get(40), Some(&1));
    assert_eq!(counters.get(50), Some(&3));
    assert_eq!(counters.get(60), Some(&1));
    assert_eq!(counters.len(), 5);
}

#[test]
fn entry_equivalent_to_lookup_then_branch() {
    let keys = [7u64, 3, 7, 9, 3, 3];
    let mut by_entry: IntMap<u64> = IntMap::new();
    for &k in &keys {
        let e = by_entry.entry(k);
        let c = match e {
            Entry::Occupied { .. } => by_entry.entry_into_mut(e),
            Entry::Vacant { .. } => by_entry.entry_insert(e, 0),
        };
        *c += 1;
    }
    let mut by_lookup: IntMap<u64> = IntMap::new();
    for &k in &keys {
        if by_lookup.contains_key(k) {
            *by_lookup.get_mut(k).unwrap() += 1;
        } else {
            by_lookup.insert(k, 1);
        }
    }
    assert_eq!(by_entry.len(), by_lookup.len());
    for k in by_entry.keys() {
        assert_eq!(by_entry.get(k), by_lookup.get(k));
    }
}

#[test]
fn entry_get_and_remove() {
    let mut map: IntMap<&str> = IntMap::new();
    map.insert(5, "five");
    let e = map.entry(5);
    assert!(matches!(e, Entry::Occupied { .. }));
    assert_eq!(map.entry_get(e), &"five");
    assert_eq!(map.entry_remove(e), "five");
    assert!(!map.contains_key(5));
    let e2 = map.entry(5);
    assert!(matches!(e2, Entry::Vacant { .. }));
}

#[test]
fn retain_keeps_even_keys() {
    let mut map: IntMap<u64> = IntMap::new();
    for k in 0..100u64 {
        map.insert(k, k);
    }
    map.retain(|k, _| k % 2 == 0);
    assert_eq!(map.len(), 50);
    for k in 0..100u64 {
        assert_eq!(map.contains_key(k), k % 2 == 0);
    }
    assert!(map.assert_count());
}

#[test]
fn retain_on_values() {
    let mut map: IntMap<u64> = IntMap::new();
    map.insert(1, 11);
    map.insert(2, 12);
    map.insert(4, 13);
    map.retain(|_, v| *v % 2 == 1);
    assert_eq!(map.len(), 2);
    assert!(map.contains_key(1));
    assert!(map.contains_key(4));
    assert!(!map.contains_key(2));
}

#[test]
fn iter_lists_every_pair_once() {
    let mut map: IntMap<u64> = IntMap::new();
    for k in 0..20u64 {
        map.insert(k, 100 + k);
    }
    let pairs = map.iter();
    assert_eq!(pairs.len(), 20);
    let mut seen: Vec<u64> = pairs.iter().map(|p| p.0).collect();
    seen.sort_unstable();
    let expected: Vec<u64> = (0..20).collect();
    assert_eq!(seen, expected);
    for (k, v) in pairs {
        assert_eq!(*v, 100 + k);
    }
}

#[test]
fn keys_and_values_project_the_pairs() {
    let mut map: IntMap<u64> = IntMap::new();
    map.insert(8, 80);
    map.insert(9, 90);
    let mut ks = map.keys();
    ks.sort_unstable();
    assert_eq!(ks, vec![8, 9]);
    let mut vs: Vec<u64> = map.values().into_iter().copied().collect();
    vs.sort_unstable();
    assert_eq!(vs, vec![80, 90]);
}

#[test]
fn drain_returns_all_pairs_and_empties_the_map() {
    let mut map: IntMap<u64> = IntMap::new();
    for k in [3u64, 1, 4, 1, 5] {
        map.insert(k, k * 2);
    }
    let cap = map.capacity();
    let mut drained = map.drain();
    drained.sort_unstable();
    assert_eq!(drained, vec![(1, 2), (3, 6), (4, 8), (5, 10)]);
    assert_eq!(map.len(), 0);
    assert!(map.is_empty());
    assert_eq!(map.capacity(), cap);
    assert_eq!(map.get(3), None);
}

#[test]
fn iter_mut_rewrites_values_from_keys() {
    let mut map: IntMap<u64> = IntMap::new();
    map.insert(1, 10);
    map.insert(2, 20);
    map.iter_mut(|k, v| *v + k);
    assert_eq!(map.get(1), Some(&11));
    assert_eq!(map.get(2), Some(&22));
    assert_eq!(map.len(), 2);
}

#[test]
fn values_mut_rewrites_every_value() {
    let mut map: IntMap<u64> = IntMap::new();
    map.insert(1, 10);
    map.insert(2, 20);
    map.values_mut(|v| *v * 2);
    assert_eq!(map.get(1), Some(&20));
    assert_eq!(map.get(2), Some(&40));
}

#[test]
fn reserve_grows_capacity_and_keeps_contents() {
    let mut map: IntMap<u64> = IntMap::new();
    map.insert(1, 10);
    map.insert(2, 20);
    map.reserve(30);
    assert!(map.capacity() >= 32);
    assert!(map.capacity().is_power_of_two());
    assert_eq!(map.get(1), Some(&10));
    assert_eq!(map.get(2), Some(&20));
    assert_eq!(map.len(), 2);
}

#[test]
fn load_counts_occupied_buckets() {
    let mut map: IntMap<u64> = IntMap::new();
    assert_eq!(map.load(), 0);
    map.insert(1, 1);
    assert_eq!(map.load(), 1);
}

#[test]
fn collisions_reports_chains_longer_than_one() {
    let mut map: IntMap<u64> = IntMap::with_capacity(8);
    assert_eq!(map.capacity(), 8);
    let multiplier: u64 = 11400714819323198549;
    let target = multiplier.wrapping_mul(0) & 7;
    let mut partner: u64 = 0;
    for k in 1..1000u64 {
        if multiplier.wrapping_mul(k) & 7 == target {
            partner = k;
            break;
        }
    }
    assert!(partner != 0);
    map.insert(0, 100);
    map.insert(partner, 200);
    assert_eq!(map.capacity(), 8);
    let hist = map.collisions();
    assert_eq!(hist.len(), 1);
    assert_eq!(hist.get(2), Some(&1));
    let empty_hist = IntMap::<u64>::new().collisions();
    assert_eq!(empty_hist.len(), 0);
}

#[test]
fn count_matches_content_through_mixed_operations() {
    let mut map: IntMap<u64> = IntMap::new();
    for k in 0..30u64 {
        map.insert(k, k);
    }
    for k in 10..20u64 {
        map.remove(k);
    }
    assert_eq!(map.len(), 20);
    assert_eq!(map.iter().len(), 20);
    assert!(map.assert_count());
    map.retain(|k, _| k < 25);
    assert_eq!(map.len(), 15);
    assert_eq!(map.iter().len(), 15);
    assert!(map.assert_count());
    map.clear();
    assert_eq!(map.len(), 0);
    assert!(map.assert_count());
    map.insert(7, 7);
    let drained = map.drain();
    assert_eq!(drained.len(), 1);
    assert_eq!(map.len(), 0);
    assert!(map.assert_count());
}

#[test]
fn largest_key_is_stored_like_any_other() {
    let mut map: IntMap<&str> = IntMap::new();
    assert!(map.insert(u64::MAX, "top"));
    assert!(map.insert(0, "bottom"));
    assert_eq!(map.get(u64::MAX), Some(&"top"));
    assert_eq!(map.get(0), Some(&"bottom"));
    assert_eq!(map.remove(u64::MAX), Some("top"));
    assert!(!map.contains_key(u64::MAX));
}

#[test]
fn map_eq_compares_contents() {
    let mut a: IntMap<u64> = IntMap::new();
    let mut b: IntMap<u64> = IntMap::with_capacity(64);
    for k in 0..10u64 {
        a.insert(k, k * 3);
        b.insert(9 - k, (9 - k) * 3);
    }
    assert!(a.map_eq(&b));
    assert!(b.map_eq(&a));
    *b.get_mut(4).unwrap() = 999;
    assert!(!a.map_eq(&b));
}

#[test]
fn map_eq_rejects_strict_superset() {
    let mut small: IntMap<u64> = IntMap::new();
    let mut big: IntMap<u64> = IntMap::new();
    small.insert(1, 10);
    big.insert(1, 10);
    big.insert(2, 20);
    assert!(!small.map_eq(&big));
    assert!(!big.map_eq(&small));
}
