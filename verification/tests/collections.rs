use rs_parliament::idset::IdSet;
use rs_parliament::vecmap::VecMap;

#[test]
fn vecmap_insert_get_update() {
    let mut m: VecMap<u32> = VecMap::new();
    assert!(m.is_empty());
    assert!(m.get(1).is_none());
    m.insert(1, 10);
    m.insert(2, 20);
    assert_eq!(m.len(), 2);
    assert_eq!(m.get(1), Some(&10));
    assert_eq!(m.get(2), Some(&20));
    // updating an existing key keeps the entry order
    m.insert(1, 11);
    assert_eq!(m.len(), 2);
    assert_eq!(m.get(1), Some(&11));
    assert_eq!(m.entries[0].0, 1);
    assert_eq!(m.entries[1].0, 2);
}

#[test]
fn vecmap_remove_keeps_order_of_rest() {
    let mut m: VecMap<u32> = VecMap::new();
    for k in 1..=4u64 {
        m.insert(k, k as u32);
    }
    m.remove(2);
    assert_eq!(m.len(), 3);
    assert!(m.get(2).is_none());
    assert_eq!(m.entries[0].0, 1);
    assert_eq!(m.entries[1].0, 3);
    assert_eq!(m.entries[2].0, 4);
    // removing a missing key is a no-op
    m.remove(9);
    assert_eq!(m.len(), 3);
}

#[test]
fn vecmap_retain_from_drops_low_keys() {
    let mut m: VecMap<u32> = VecMap::new();
    for k in [5u64, 1, 9, 3] {
        m.insert(k, k as u32);
    }
    m.retain_from(4);
    assert_eq!(m.len(), 2);
    assert_eq!(m.entries[0].0, 5);
    assert_eq!(m.entries[1].0, 9);
}

#[test]
fn idset_insert_dedups() {
    let mut s = IdSet::new();
    s.insert(7);
    s.insert(8);
    s.insert(7);
    assert_eq!(s.len(), 2);
    assert!(s.contains(7));
    assert!(s.contains(8));
    assert!(!s.contains(9));
}

#[test]
fn idset_from_ids_keeps_first_occurrences() {
    let s = IdSet::from_ids(&vec![3, 1, 3, 2, 1]);
    assert_eq!(s.len(), 3);
    assert_eq!(s.ids, vec![3, 1, 2]);
}

#[test]
fn idset_remove_and_clear() {
    let mut s = IdSet::from_ids(&vec![1, 2, 3]);
    s.remove(2);
    assert_eq!(s.ids, vec![1, 3]);
    s.remove(9);
    assert_eq!(s.len(), 2);
    s.clear();
    assert!(s.is_empty());
}
