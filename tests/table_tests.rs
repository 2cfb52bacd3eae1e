use robin_table::hash::{make_hash, RandomState, SafeHash};
use robin_table::map::HashMap;
use robin_table::policy::{
    calculate_allocation, calculate_offsets, checked_next_power_of_two, round_up_to_next,
    DefaultResizePolicy,
};
use robin_table::raw::CollectionError;

#[test]
fn can_alias_safehash_as_u64() {
    assert_eq!(std::mem::size_of::<SafeHash>(), std::mem::size_of::<u64>())
}

#[test]
fn test_rounding() {
    assert_eq!(round_up_to_next(0, 4), 0);
    assert_eq!(round_up_to_next(1, 4), 4);
    assert_eq!(round_up_to_next(2, 4), 4);
    assert_eq!(round_up_to_next(3, 4), 4);
    assert_eq!(round_up_to_next(4, 4), 4);
    assert_eq!(round_up_to_next(5, 4), 8);
}

#[test]
fn test_offset_calculation() {
    assert_eq!(calculate_allocation(128, 8, 15, 1, 4, 4), (8, 0, 148, false));
    assert_eq!(calculate_allocation(3, 1, 2, 1, 1, 1), (1, 0, 6, false));
    assert_eq!(calculate_allocation(6, 2, 12, 4, 24, 8), (8, 0, 48, false));
    assert_eq!(calculate_offsets(128, 15, 1, 4), (128, 144, false));
    assert_eq!(calculate_offsets(3, 2, 1, 1), (3, 5, false));
    assert_eq!(calculate_offsets(6, 12, 4, 8), (8, 24, false));
}

#[test]
fn offsets_report_overflow() {
    let (_, _, oflo) = calculate_offsets(usize::MAX - 2, 0, 8, 8);
    assert!(oflo);
    let (_, _, _, oflo) = calculate_allocation(8, 8, usize::MAX - 4, 8, 8, 8);
    assert!(oflo);
}

#[test]
fn test_resize_policy() {
    let rp = DefaultResizePolicy;
    for n in 0..1000 {
        assert!(rp.min_capacity(rp.usable_capacity(n)) <= n);
        assert!(rp.usable_capacity(rp.min_capacity(n)) <= n);
    }
}

#[test]
fn policy_formulas() {
    let rp = DefaultResizePolicy::new();
    assert_eq!(rp.min_capacity(0), 0);
    assert_eq!(rp.min_capacity(10), 11);
    assert_eq!(rp.min_capacity(32), 36);
    assert_eq!(rp.usable_capacity(32), 29);
    assert_eq!(rp.usable_capacity(11), 10);
    assert_eq!(rp.usable_capacity(0), 0);
    assert_eq!(rp.checked_min_capacity(usize::MAX), None);
    assert_eq!(checked_next_power_of_two(33), Some(64));
    assert_eq!(checked_next_power_of_two(32), Some(32));
    assert_eq!(checked_next_power_of_two(0), Some(1));
    assert_eq!(checked_next_power_of_two(usize::MAX), None);
}

#[test]
fn keyed_hash_depends_on_keys_and_key() {
    let a = RandomState::with_keys(1, 2);
    let b = RandomState::with_keys(3, 4);
    let h1 = make_hash(&a, &7u64).inspect();
    assert_eq!(h1, make_hash(&a, &7u64).inspect());
    assert!(h1 >= 0x8000_0000_0000_0000);
    assert_ne!(h1, 7u64 | 0x8000_0000_0000_0000);
    assert_ne!(h1, make_hash(&b, &7u64).inspect());
    assert_ne!(h1, make_hash(&a, &8u64).inspect());
}

#[test]
fn test_create_capacity_zero() {
    let mut m = HashMap::with_capacity(0).unwrap();

    assert!(m.insert(1, 1).is_none());

    assert!(m.contains_key(&1));
    assert!(!m.contains_key(&0));
}

#[test]
fn with_capacity_zero_is_new() {
    let m: HashMap<i32, i32> = HashMap::with_capacity(0).unwrap();
    let n: HashMap<i32, i32> = HashMap::new();
    assert_eq!(m.raw_capacity(), 0);
    assert_eq!(n.raw_capacity(), 0);
    assert_eq!(m.len(), n.len());
}

#[test]
fn with_capacity_overflow() {
    let r: Result<HashMap<i32, i32>, CollectionError> = HashMap::with_capacity(usize::MAX);
    assert!(matches!(r, Err(CollectionError::CapacityOverflow)));
    let r: Result<HashMap<u64, u64>, CollectionError> = HashMap::with_capacity(usize::MAX / 8);
    assert!(matches!(r, Err(CollectionError::CapacityOverflow)));
}

#[test]
fn reserve_overflow_leaves_map() {
    let mut m = HashMap::new();
    m.insert(1, 2);
    let cap = m.raw_capacity();
    assert_eq!(m.reserve(usize::MAX), Err(CollectionError::CapacityOverflow));
    assert_eq!(m.raw_capacity(), cap);
    assert_eq!(m.get(&1), Some(&2));
    assert_eq!(m.len(), 1);
}

#[test]
fn fresh_map_allocates_nothing() {
    let mut m: HashMap<i32, i32> = HashMap::new();
    assert_eq!(m.capacity(), 0);
    assert_eq!(m.raw_capacity(), 0);
    assert_eq!(m.get(&3), None);
    assert!(!m.contains_key(&3));
    assert_eq!(m.remove(&3), None);
    assert_eq!(m.raw_capacity(), 0);
}

#[test]
fn test_insert() {
    let mut m = HashMap::new();
    assert_eq!(m.len(), 0);
    assert!(m.insert(1, 2).is_none());
    assert_eq!(m.len(), 1);
    assert!(m.insert(2, 4).is_none());
    assert_eq!(m.len(), 2);
    assert_eq!(*m.get(&1).unwrap(), 2);
    assert_eq!(*m.get(&2).unwrap(), 4);
}

#[test]
fn test_empty_pop() {
    let mut m: HashMap<isize, bool> = HashMap::new();
    assert_eq!(m.remove(&0), None);
}

#[test]
fn test_lots_of_insertions() {
    let mut m = HashMap::new();

    for _ in 0..10 {
        assert!(m.is_empty());

        for i in 1..1001 {
            assert!(m.insert(i, i).is_none());

            for j in 1..i + 1 {
                let r = m.get(&j);
                assert_eq!(r, Some(&j));
            }

            for j in i + 1..1001 {
                let r = m.get(&j);
                assert_eq!(r, None);
            }
        }

        for i in 1001..2001 {
            assert!(!m.contains_key(&i));
        }

        for i in 1..1001 {
            assert!(m.remove(&i).is_some());

            for j in 1..i + 1 {
                assert!(!m.contains_key(&j));
            }

            for j in i + 1..1001 {
                assert!(m.contains_key(&j));
            }
        }

        for i in 1..1001 {
            assert!(!m.contains_key(&i));
        }

        for i in 1..1001 {
            assert!(m.insert(i, i).is_none());
        }

        for i in (1..1001).rev() {
            assert!(m.remove(&i).is_some());

            for j in i..1001 {
                assert!(!m.contains_key(&j));
            }

            for j in 1..i {
                assert!(m.contains_key(&j));
            }
        }
    }
}

#[test]
fn test_find_mut() {
    let mut m = HashMap::new();
    assert!(m.insert(1, 12).is_none());
    assert!(m.insert(2, 8).is_none());
    assert!(m.insert(5, 14).is_none());
    let new = 100;
    match m.get_mut(&5) {
        None => panic!(),
        Some(x) => *x = new,
    }
    assert_eq!(m.get(&5), Some(&new));
}

#[test]
fn test_insert_overwrite() {
    let mut m = HashMap::new();
    assert!(m.insert(1, 2).is_none());
    assert_eq!(*m.get(&1).unwrap(), 2);
    assert!(!m.insert(1, 3).is_none());
    assert_eq!(*m.get(&1).unwrap(), 3);
}

#[test]
fn test_insert_conflicts() {
    let mut m = HashMap::with_capacity(4).unwrap();
    assert!(m.insert(1, 2).is_none());
    assert!(m.insert(5, 3).is_none());
    assert!(m.insert(9, 4).is_none());
    assert_eq!(*m.get(&9).unwrap(), 4);
    assert_eq!(*m.get(&5).unwrap(), 3);
    assert_eq!(*m.get(&1).unwrap(), 2);
}

#[test]
fn test_conflict_remove() {
    let mut m = HashMap::with_capacity(4).unwrap();
    assert!(m.insert(1, 2).is_none());
    assert_eq!(*m.get(&1).unwrap(), 2);
    assert!(m.insert(5, 3).is_none());
    assert_eq!(*m.get(&1).unwrap(), 2);
    assert_eq!(*m.get(&5).unwrap(), 3);
    assert!(m.insert(9, 4).is_none());
    assert_eq!(*m.get(&1).unwrap(), 2);
    assert_eq!(*m.get(&5).unwrap(), 3);
    assert_eq!(*m.get(&9).unwrap(), 4);
    assert!(m.remove(&1).is_some());
    assert_eq!(*m.get(&9).unwrap(), 4);
    assert_eq!(*m.get(&5).unwrap(), 3);
}

#[test]
fn test_is_empty() {
    let mut m = HashMap::with_capacity(4).unwrap();
    assert!(m.insert(1, 2).is_none());
    assert!(!m.is_empty());
    assert!(m.remove(&1).is_some());
    assert!(m.is_empty());
}

#[test]
fn test_pop() {
    let mut m = HashMap::new();
    m.insert(1, 2);
    assert_eq!(m.remove(&1), Some(2));
    assert_eq!(m.remove(&1), None);
}

#[test]
fn test_iterate() {
    let mut m = HashMap::with_capacity(4).unwrap();
    for i in 0..32 {
        assert!(m.insert(i, i * 2).is_none());
    }
    assert_eq!(m.len(), 32);

    let mut observed: u32 = 0;

    for (k, v) in m.iter() {
        assert_eq!(*v, *k * 2);
        observed |= 1 << *k;
    }
    assert_eq!(observed, 0xFFFF_FFFF);
}

#[test]
fn test_keys() {
    let vec = vec![(1, 'a'), (2, 'b'), (3, 'c')];
    let mut map = HashMap::new();
    map.extend(vec).unwrap();
    let keys: Vec<_> = map.keys().into_iter().cloned().collect();
    assert_eq!(keys.len(), 3);
    assert!(keys.contains(&1));
    assert!(keys.contains(&2));
    assert!(keys.contains(&3));
}

#[test]
fn test_values() {
    let vec = vec![(1, 'a'), (2, 'b'), (3, 'c')];
    let mut map = HashMap::new();
    map.extend(vec).unwrap();
    let values: Vec<_> = map.values().into_iter().cloned().collect();
    assert_eq!(values.len(), 3);
    assert!(values.contains(&'a'));
    assert!(values.contains(&'b'));
    assert!(values.contains(&'c'));
}

#[test]
fn test_find() {
    let mut m = HashMap::new();
    assert!(m.get(&1).is_none());
    m.insert(1, 2);
    match m.get(&1) {
        None => panic!(),
        Some(v) => assert_eq!(*v, 2),
    }
}

#[test]
fn test_expand() {
    let mut m = HashMap::new();

    assert_eq!(m.len(), 0);
    assert!(m.is_empty());

    let mut i = 0;
    let old_cap = m.raw_capacity();
    while old_cap == m.raw_capacity() {
        m.insert(i, i);
        i += 1;
    }

    assert_eq!(m.len(), i);
    assert!(!m.is_empty());
}

#[test]
fn test_behavior_resize_policy() {
    let mut m = HashMap::new();

    assert_eq!(m.len(), 0);
    assert_eq!(m.raw_capacity(), 0);
    assert!(m.is_empty());

    m.insert(0, 0);
    m.remove(&0);
    assert!(m.is_empty());
    let initial_cap = m.raw_capacity();
    m.reserve(initial_cap).unwrap();
    let cap = m.raw_capacity();

    assert_eq!(cap, initial_cap * 2);

    let mut i = 0;
    for _ in 0..cap * 3 / 4 {
        m.insert(i, i);
        i += 1;
    }

    assert_eq!(m.len(), i);
    assert_eq!(m.raw_capacity(), cap);

    for _ in 0..cap / 4 {
        m.insert(i, i);
        i += 1;
    }

    let new_cap = m.raw_capacity();
    assert_eq!(new_cap, cap * 2);

    for _ in 0..cap / 2 - 1 {
        i -= 1;
        m.remove(&i);
        assert_eq!(m.raw_capacity(), new_cap);
    }
    m.shrink_to_fit();
    assert_eq!(m.raw_capacity(), cap);
    for _ in 0..cap / 2 - 1 {
        i -= 1;
        m.remove(&i);
    }
    m.shrink_to_fit();

    assert_eq!(m.len(), i);
    assert!(!m.is_empty());
    assert_eq!(m.raw_capacity(), initial_cap);
}

#[test]
fn test_reserve_shrink_to_fit() {
    let mut m = HashMap::new();
    m.insert(0, 0);
    m.remove(&0);
    assert!(m.capacity() >= m.len());
    for i in 0..128 {
        m.insert(i, i);
    }
    m.reserve(256).unwrap();

    let usable_cap = m.capacity();
    for i in 128..(128 + 256) {
        m.insert(i, i);
        assert_eq!(m.capacity(), usable_cap);
    }

    for i in 100..(128 + 256) {
        assert_eq!(m.remove(&i), Some(i));
    }
    m.shrink_to_fit();

    assert_eq!(m.len(), 100);
    assert!(!m.is_empty());
    assert!(m.capacity() >= m.len());

    for i in 0..100 {
        assert_eq!(m.remove(&i), Some(i));
    }
    m.shrink_to_fit();
    m.insert(0, 0);

    assert_eq!(m.len(), 1);
    assert!(m.capacity() >= m.len());
    assert_eq!(m.remove(&0), Some(0));
}

#[test]
fn test_from_iter() {
    let xs = [(1, 1), (2, 2), (3, 3), (4, 4), (5, 5), (6, 6)];

    let mut map = HashMap::new();
    map.extend(xs.to_vec()).unwrap();

    for &(k, v) in &xs {
        assert_eq!(map.get(&k), Some(&v));
    }
}

#[test]
fn test_size_hint() {
    let xs = [(1, 1), (2, 2), (3, 3), (4, 4), (5, 5), (6, 6)];

    let mut map = HashMap::new();
    map.extend(xs.to_vec()).unwrap();

    let mut iter = map.iter().into_iter();

    for _ in iter.by_ref().take(3) {}

    assert_eq!(iter.size_hint(), (3, Some(3)));
}

#[test]
fn test_iter_len() {
    let xs = [(1, 1), (2, 2), (3, 3), (4, 4), (5, 5), (6, 6)];

    let mut map = HashMap::new();
    map.extend(xs.to_vec()).unwrap();

    let mut iter = map.iter().into_iter();

    for _ in iter.by_ref().take(3) {}

    assert_eq!(iter.len(), 3);
}

#[test]
fn test_extend_ref() {
    let mut a = HashMap::new();
    a.insert(1, "one");
    let mut b = HashMap::new();
    b.insert(2, "two");
    b.insert(3, "three");

    a.extend(b.iter().into_iter().map(|(k, v)| (*k, *v)).collect()).unwrap();

    assert_eq!(a.len(), 3);
    assert_eq!(a.get(&1), Some(&"one"));
    assert_eq!(a.get(&2), Some(&"two"));
    assert_eq!(a.get(&3), Some(&"three"));
}

#[test]
fn test_index() {
    let mut map = HashMap::new();

    map.insert(1, 2);
    map.insert(2, 1);
    map.insert(3, 4);

    assert_eq!(*map.index(&2), 1);
}
