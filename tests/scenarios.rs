use robin_table::hash::{DefaultState, RandomState};
use robin_table::map::HashMap;

#[test]
fn insert_then_get_finds_value() {
    let mut m = HashMap::new();
    m.insert(42u64, 7u32);
    assert_eq!(m.get(&42), Some(&7));
}

#[test]
fn insert_twice_returns_first_value() {
    let mut m = HashMap::new();
    assert_eq!(m.insert(3i64, 10i64), None);
    assert_eq!(m.insert(3, 20), Some(10));
    assert_eq!(m.get(&3), Some(&20));
    assert_eq!(m.len(), 1);
}

#[test]
fn insert_then_remove_leaves_nothing() {
    let mut m = HashMap::new();
    m.insert(-5i32, 1u8);
    assert_eq!(m.remove(&-5), Some(1));
    assert_eq!(m.get(&-5), None);
    assert!(m.is_empty());
}

#[test]
fn insert_remove_in_order() {
    let mut m = HashMap::new();
    for i in 1..=1000u64 {
        assert!(m.insert(i, i * 3).is_none());
    }
    for i in 1..=1000u64 {
        assert_eq!(m.get(&i), Some(&(i * 3)));
    }
    for i in 1..=1000u64 {
        assert_eq!(m.remove(&i), Some(i * 3));
    }
    for i in 1..=1000u64 {
        assert_eq!(m.get(&i), None);
    }
    assert_eq!(m.len(), 0);
}

#[test]
fn insert_then_remove_in_reverse() {
    let mut m = HashMap::new();
    for i in 1..=1000i32 {
        m.insert(i, i);
    }
    for i in (1..=1000i32).rev() {
        assert_eq!(m.remove(&i), Some(i));
        assert!(!m.contains_key(&i));
        if i > 1 {
            assert!(m.contains_key(&(i - 1)));
            assert!(m.contains_key(&1));
        }
        assert_eq!(m.len(), (i - 1) as usize);
    }
}

#[test]
fn colliding_keys_in_small_map() {
    let mut m = HashMap::with_capacity(4).unwrap();
    m.insert(1, 2);
    m.insert(5, 3);
    m.insert(9, 4);
    assert_eq!(m.get(&1), Some(&2));
    assert_eq!(m.get(&5), Some(&3));
    assert_eq!(m.get(&9), Some(&4));
    assert_eq!(m.remove(&1), Some(2));
    assert_eq!(m.get(&5), Some(&3));
    assert_eq!(m.get(&9), Some(&4));
}

#[test]
fn all_keys_in_one_bucket_chain() {
    let mut m = HashMap::with_hash_state(RandomState::with_keys(0, 0));
    for i in 0..200u32 {
        m.insert(i, i + 1);
    }
    for i in (0..200u32).step_by(3) {
        assert_eq!(m.remove(&i), Some(i + 1));
    }
    for i in 0..200u32 {
        if i % 3 == 0 {
            assert_eq!(m.get(&i), None);
        } else {
            assert_eq!(m.get(&i), Some(&(i + 1)));
        }
    }
}

#[test]
fn clone_then_drop_clone_keeps_source() {
    let mut m = HashMap::new();
    for i in 0..100u64 {
        m.insert(i, i * i);
    }
    {
        let c = m.clone();
        assert_eq!(c.len(), 100);
        for i in 0..100u64 {
            assert_eq!(c.get(&i), Some(&(i * i)));
        }
        assert_eq!(c.raw_capacity(), m.raw_capacity());
    }
    assert_eq!(m.len(), 100);
    for i in 0..100u64 {
        assert_eq!(m.get(&i), Some(&(i * i)));
    }
}

#[test]
fn drain_yields_len_pairs_and_keeps_capacity() {
    let mut m = HashMap::new();
    for i in 0..50i64 {
        m.insert(i, -i);
    }
    let cap = m.raw_capacity();
    let pairs = m.drain();
    assert_eq!(pairs.len(), 50);
    let mut seen = vec![false; 50];
    for (k, v) in pairs {
        assert_eq!(v, -k);
        assert!(!seen[k as usize]);
        seen[k as usize] = true;
    }
    assert_eq!(m.len(), 0);
    assert_eq!(m.raw_capacity(), cap);
}

#[test]
fn clear_empties_map() {
    let mut m = HashMap::new();
    for i in 0..10usize {
        m.insert(i, i);
    }
    let cap = m.raw_capacity();
    m.clear();
    assert!(m.is_empty());
    assert_eq!(m.raw_capacity(), cap);
    assert_eq!(m.get(&3), None);
}

#[test]
fn reserve_then_inserts_do_not_grow() {
    let mut m = HashMap::new();
    for i in 0..128u32 {
        m.insert(i, i);
    }
    m.reserve(256).unwrap();
    let raw = m.raw_capacity();
    for i in 128..(128 + 256u32) {
        m.insert(i, i);
        assert_eq!(m.raw_capacity(), raw);
    }
    for i in 100..(128 + 256u32) {
        assert_eq!(m.remove(&i), Some(i));
    }
    m.shrink_to_fit();
    assert!(m.raw_capacity() < raw);
    for i in 0..100u32 {
        assert_eq!(m.get(&i), Some(&i));
    }
}

#[test]
fn resize_keeps_every_pair() {
    let mut m = HashMap::new();
    let mut caps = Vec::new();
    for i in 0..5000u64 {
        m.insert(i.wrapping_mul(0x9E37_79B9_7F4A_7C15), i);
        if caps.last() != Some(&m.raw_capacity()) {
            caps.push(m.raw_capacity());
        }
    }
    assert!(caps.len() > 3);
    assert_eq!(m.len(), 5000);
    for i in 0..5000u64 {
        assert_eq!(m.get(&i.wrapping_mul(0x9E37_79B9_7F4A_7C15)), Some(&i));
    }
}

#[test]
fn get_mut_changes_value() {
    let mut m = HashMap::new();
    m.insert(1usize, 10usize);
    if let Some(v) = m.get_mut(&1) {
        *v += 5;
    }
    assert_eq!(m.get(&1), Some(&15));
    assert!(m.get_mut(&2).is_none());
}

#[test]
fn capacity_is_power_of_two() {
    let mut m = HashMap::new();
    for i in 0..300i32 {
        m.insert(i, ());
        let raw = m.raw_capacity();
        assert!(raw >= 32 && raw.is_power_of_two());
        assert!(m.len() <= m.capacity());
    }
}

#[test]
fn default_state_maps_agree() {
    let mut a = HashMap::with_hash_state(DefaultState);
    let mut b = HashMap::with_hash_state(DefaultState);
    for i in 0..40u64 {
        a.insert(i, i);
        b.insert(i, i);
    }
    let ka: Vec<u64> = a.keys().into_iter().cloned().collect();
    let kb: Vec<u64> = b.keys().into_iter().cloned().collect();
    assert_eq!(ka, kb);
    assert_eq!(ka.len(), 40);
}

#[test]
fn into_iter_yields_every_pair() {
    let mut m = HashMap::new();
    for i in 0..20u32 {
        m.insert(i, i + 100);
    }
    let mut pairs = m.into_iter();
    pairs.sort();
    assert_eq!(pairs.len(), 20);
    for (i, (k, v)) in pairs.into_iter().enumerate() {
        assert_eq!(k, i as u32);
        assert_eq!(v, i as u32 + 100);
    }
}

#[test]
fn values_follow_keys_order() {
    let mut m = HashMap::new();
    for i in 0..30i64 {
        m.insert(i, i * 7);
    }
    let ks = m.keys();
    let vs = m.values();
    assert_eq!(ks.len(), vs.len());
    for (k, v) in ks.into_iter().zip(vs.into_iter()) {
        assert_eq!(*v, *k * 7);
    }
}

#[test]
fn extend_later_pairs_win() {
    let mut m = HashMap::new();
    m.insert(1u32, 0u32);
    m.extend(vec![(1, 10), (2, 20), (1, 11), (3, 30)]).unwrap();
    assert_eq!(m.len(), 3);
    assert_eq!(m.get(&1), Some(&11));
    assert_eq!(m.get(&2), Some(&20));
    assert_eq!(m.get(&3), Some(&30));
}
