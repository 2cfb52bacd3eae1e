use rand::rngs::StdRng;
use rand::{Rng, SeedableRng};
use robin_table::entry::Entry::{Occupied, Vacant};
use robin_table::map::HashMap;

#[test]
fn test_entry() {
    let xs = [(1, 10), (2, 20), (3, 30), (4, 40), (5, 50), (6, 60)];

    let mut map = HashMap::new();
    map.extend(xs.to_vec()).unwrap();

    // Existing key (insert)
    match map.entry(1) {
        Vacant(_) => unreachable!(),
        Occupied(mut view) => {
            assert_eq!(view.get(), &10);
            assert_eq!(view.insert(100), 10);
        }
    }
    assert_eq!(map.get(&1).unwrap(), &100);
    assert_eq!(map.len(), 6);

    // Existing key (update)
    match map.entry(2) {
        Vacant(_) => unreachable!(),
        Occupied(mut view) => {
            let v = view.get_mut();
            let new_v = (*v) * 10;
            *v = new_v;
        }
    }
    assert_eq!(map.get(&2).unwrap(), &200);
    assert_eq!(map.len(), 6);

    // Existing key (take)
    match map.entry(3) {
        Vacant(_) => unreachable!(),
        Occupied(view) => {
            assert_eq!(view.remove(), 30);
        }
    }
    assert_eq!(map.get(&3), None);
    assert_eq!(map.len(), 5);

    // Inexistent key (insert)
    match map.entry(10) {
        Occupied(_) => unreachable!(),
        Vacant(view) => {
            assert_eq!(*view.insert(1000), 1000);
        }
    }
    assert_eq!(map.get(&10).unwrap(), &1000);
    assert_eq!(map.len(), 6);
}

#[test]
fn test_entry_take_doesnt_corrupt() {
    let mut m: HashMap<isize, ()> = HashMap::new();
    let mut rng = StdRng::seed_from_u64(912047394837942734);

    // Populate the map with some items.
    for _ in 0..50 {
        let x = rng.gen_range(-10..10);
        m.insert(x, ());
    }

    for _ in 0..1000 {
        let x = rng.gen_range(-10..10);
        match m.entry(x) {
            Vacant(_) => {}
            Occupied(e) => {
                e.remove();
            }
        }

        for k in m.keys() {
            assert!(m.contains_key(k), "{} is in keys() but not in the map?", k);
        }
    }
}

#[test]
fn entry_or_insert_present_and_absent() {
    let mut map = HashMap::new();
    map.insert(1, 10);
    {
        let r = map.entry(1).or_insert(999);
        assert_eq!(*r, 10);
    }
    {
        let r = map.entry(10).or_insert(999);
        assert_eq!(*r, 999);
    }
    assert_eq!(map.get(&10), Some(&999));
    assert_eq!(map.get(&1), Some(&10));
    assert_eq!(map.len(), 2);
}

#[test]
fn entry_or_insert_with_only_calls_when_absent() {
    let mut map = HashMap::new();
    map.insert(4u64, 1u64);
    *map.entry(4).or_insert_with(|| 50) += 1;
    *map.entry(5).or_insert_with(|| 50) += 1;
    assert_eq!(map.get(&4), Some(&2));
    assert_eq!(map.get(&5), Some(&51));
}

#[test]
fn entry_into_mut_and_key() {
    let mut map = HashMap::new();
    map.insert(7i32, 'x');
    if let Occupied(o) = map.entry(7) {
        *o.into_mut() = 'y';
    }
    assert_eq!(map.get(&7), Some(&'y'));
    match map.entry(8) {
        Vacant(v) => assert_eq!(*v.key(), 8),
        Occupied(_) => unreachable!(),
    }
    assert!(!map.contains_key(&8));
}

#[test]
fn test_eq() {
    let mut m1 = HashMap::new();
    m1.insert(1, 2);
    m1.insert(2, 3);
    m1.insert(3, 4);

    let mut m2 = HashMap::new();
    m2.insert(1, 2);
    m2.insert(2, 3);

    assert!(!m1.eq(&m2));

    m2.insert(3, 4);

    assert!(m1.eq(&m2));

    m2.insert(3, 5);
    assert!(!m1.eq(&m2));
}
