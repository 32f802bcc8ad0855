use bump_allocator::HashMap;

#[test]
fn empty_map_has_nothing() {
    let m: HashMap<u32> = HashMap::new();
    assert_eq!(m.get(&0), None);
    assert_eq!(m.get(&42), None);
}

#[test]
fn insert_then_get() {
    let mut m = HashMap::new();
    assert_eq!(m.insert(7, "seven"), None);
    assert_eq!(m.insert(8, "eight"), None);
    assert_eq!(m.get(&7), Some(&"seven"));
    assert_eq!(m.get(&8), Some(&"eight"));
    assert_eq!(m.get(&9), None);
}

#[test]
fn insert_existing_key_returns_old_value() {
    let mut m = HashMap::new();
    assert_eq!(m.insert(1, 10), None);
    assert_eq!(m.insert(1, 20), Some(10));
    assert_eq!(m.get(&1), Some(&20));
}

#[test]
fn many_keys_survive_resizing() {
    let mut m = HashMap::with_seed(12345);
    for k in 0..500u64 {
        assert_eq!(m.insert(k * 3, k), None);
    }
    for k in 0..500u64 {
        assert_eq!(m.get(&(k * 3)), Some(&k));
        assert_eq!(m.get(&(k * 3 + 1)), None);
    }
    assert_eq!(m.insert(u64::MAX, 1), None);
    assert_eq!(m.get(&u64::MAX), Some(&1));
}

#[test]
fn iter_lists_every_entry_once() {
    let mut m = HashMap::new();
    for k in [5u64, 1, 9, 1000, 3] {
        m.insert(k, k * 10);
    }
    m.insert(9, 91);
    let mut it = m.iter();
    let mut seen = Vec::new();
    while let Some((k, v)) = it.next() {
        seen.push((k, *v));
    }
    seen.sort();
    assert_eq!(seen, vec![(1, 10), (3, 30), (5, 50), (9, 91), (1000, 10000)]);
    assert_eq!(it.next(), None);
}

#[test]
fn keys_and_values_match_entries() {
    let mut m = HashMap::with_seed(7);
    for k in 0..20u64 {
        m.insert(k, k + 100);
    }
    let mut keys = Vec::new();
    let mut ks = m.keys();
    while let Some(k) = ks.next() {
        keys.push(k);
    }
    keys.sort();
    assert_eq!(keys, (0..20u64).collect::<Vec<_>>());
    let mut values = Vec::new();
    let mut vs = m.values();
    while let Some(v) = vs.next() {
        values.push(*v);
    }
    values.sort();
    assert_eq!(values, (100..120u64).collect::<Vec<_>>());
}

#[test]
fn empty_map_iterates_nothing() {
    let m: HashMap<u8> = HashMap::new();
    assert!(m.iter().next().is_none());
    assert!(m.keys().next().is_none());
    assert!(m.values().next().is_none());
}

#[test]
fn seeds_do_not_change_contents() {
    let mut a = HashMap::with_seed(0);
    let mut b = HashMap::with_seed(u64::MAX);
    for k in [0u64, 1, 2, 3, 1 << 40, u64::MAX] {
        a.insert(k, k);
        b.insert(k, k);
    }
    for k in [0u64, 1, 2, 3, 1 << 40, u64::MAX, 4] {
        assert_eq!(a.get(&k), b.get(&k));
    }
}
