use pds::champ::ChampMap;

#[test]
fn empty_map() {
    let m: ChampMap<i64, i64> = ChampMap::new();
    assert_eq!(m.len(), 0);
    assert!(m.is_empty());
    assert_eq!(m.get(&42), None);
}

#[test]
fn champ_insert_and_get() {
    let mut m = ChampMap::new();
    m.insert_mut_hashed(1, 10);
    m.insert_mut_hashed(2, 20);
    m.insert_mut_hashed(3, 30);
    assert_eq!(m.len(), 3);
    assert_eq!(m.get(&1), Some(&10));
    assert_eq!(m.get(&2), Some(&20));
    assert_eq!(m.get(&3), Some(&30));
    assert_eq!(m.get(&4), None);
}

#[test]
fn insert_overwrite() {
    let mut m = ChampMap::new();
    m.insert_mut_hashed(1, 10);
    m.insert_mut_hashed(1, 99);
    assert_eq!(m.len(), 1);
    assert_eq!(m.get(&1), Some(&99));
}

#[test]
fn persistent_insert() {
    let m0 = ChampMap::new();
    let m1 = m0.update(1, 10);
    let m2 = m1.update(2, 20);
    assert_eq!(m0.len(), 0);
    assert_eq!(m1.len(), 1);
    assert_eq!(m2.len(), 2);
    assert_eq!(m1.get(&1), Some(&10));
    assert_eq!(m1.get(&2), None);
    assert_eq!(m2.get(&1), Some(&10));
    assert_eq!(m2.get(&2), Some(&20));
}

#[test]
fn remove_basic() {
    let mut m = ChampMap::new();
    for i in 0..100 {
        m.insert_mut_hashed(i, i * 10);
    }
    assert_eq!(m.len(), 100);
    let m2 = m.remove_persistent(&50);
    assert_eq!(m2.len(), 99);
    assert_eq!(m2.get(&50), None);
    assert_eq!(m2.get(&49), Some(&490));
    assert_eq!(m.len(), 100);
    assert_eq!(m.get(&50), Some(&500));
}

#[test]
fn remove_mut_basic() {
    let mut m = ChampMap::new();
    for i in 0..50 {
        m.insert_mut_hashed(i, i);
    }
    assert!(m.remove_mut(&25));
    assert_eq!(m.len(), 49);
    assert_eq!(m.get(&25), None);
    assert!(!m.remove_mut(&999));
    assert_eq!(m.len(), 49);
}

#[test]
fn champ_remove_all() {
    let mut m = ChampMap::new();
    let n = 200;
    for i in 0..n {
        m.insert_mut_hashed(i, i);
    }
    for i in 0..n {
        assert!(m.remove_mut(&i), "failed to remove {i}");
    }
    assert_eq!(m.len(), 0);
    assert!(m.is_empty());
}

#[test]
fn canonical_form() {
    let m1 = ChampMap::new().update(1, 10).update(2, 20).remove_persistent(&1);
    let m2 = ChampMap::new().update(2, 20);
    assert_eq!(m1.len(), 1);
    assert_eq!(m2.len(), 1);
    assert_eq!(m1.get(&2), Some(&20));
    assert_eq!(m2.get(&2), Some(&20));
}

#[test]
fn iteration() {
    let mut m = ChampMap::new();
    for i in 0..100 {
        m.insert_mut_hashed(i, i * 10);
    }
    let mut iter = m.iter();
    let mut items: Vec<(i64, i64)> = std::iter::from_fn(|| iter.next()).map(|(&k, &v)| (k, v)).collect();
    items.sort();
    assert_eq!(items.len(), 100);
    for (i, &(k, v)) in items.iter().enumerate() {
        assert_eq!(k, i as i64);
        assert_eq!(v, (i as i64) * 10);
    }
}

#[test]
fn exact_size_iterator() {
    let mut m = ChampMap::new();
    for i in 0..50 {
        m.insert_mut_hashed(i, i);
    }
    let mut iter = m.iter();
    assert_eq!(iter.len(), 50);
    for expected in (0..50).rev() {
        iter.next();
        assert_eq!(iter.len(), expected);
    }
}

#[test]
fn champ_from_iterator() {
    let m: ChampMap<i64, i64> = ChampMap::from_vec((0..100).map(|i| (i, i * 10)).collect());
    assert_eq!(m.len(), 100);
    for i in 0..100 {
        assert_eq!(m.get(&i), Some(&(i * 10)));
    }
}

#[test]
fn champ_equality() {
    let m1: ChampMap<i64, i64> = ChampMap::from_vec((0..100).map(|i| (i, i)).collect());
    let m3 = m1.clone();
    assert!(m1.test_eq(&m3));
    let mut m4 = ChampMap::new();
    for i in 0i64..100 {
        m4.insert_mut(i, i);
    }
    assert_eq!(m4.len(), m1.len());
}

#[test]
fn champ_large_map() {
    let n = 10_000;
    let mut m = ChampMap::new();
    for i in 0..n {
        m.insert_mut_hashed(i, i);
    }
    assert_eq!(m.len(), n as usize);
    for i in 0..n {
        assert_eq!(m.get(&i), Some(&i));
    }
    for i in (0..n).step_by(2) {
        m.remove_mut(&i);
    }
    assert_eq!(m.len(), (n / 2) as usize);
    for i in 0..n {
        if i % 2 == 0 {
            assert_eq!(m.get(&i), None);
        } else {
            assert_eq!(m.get(&i), Some(&i));
        }
    }
}

#[test]
fn string_keys() {
    let mut m = ChampMap::new();
    for i in 0..100 {
        m.insert_mut_hashed(format!("key_{i}"), i);
    }
    assert_eq!(m.len(), 100);
    assert_eq!(m.get(&"key_42".to_string()), Some(&42));
    assert_eq!(m.get(&"missing".to_string()), None);
}
