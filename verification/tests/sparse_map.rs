use rectree::sparse_map::{Key, SparseMap};

#[test]
fn insert_and_get() {
    let mut map = SparseMap::new();

    let key = map.insert(42);
    assert_eq!(map.get(&key), Some(&42));
    assert!(map.contains(&key));
    assert_eq!(map.len(), 1);
}

#[test]
fn insert_with_key_receives_valid_key_before_insert() {
    let mut map = SparseMap::new();

    let key = map.insert_with_key(|map: &mut SparseMap<i32>, key: Key| {
        // The key must already point at the reserved (still empty) slot.
        assert_eq!(key.index(), 0);
        assert!(!map.contains(&key));

        42
    });

    assert_eq!(map.get(&key), Some(&42));
}

#[test]
fn insert_and_insert_with_key_behave_equivalently() {
    let mut map = SparseMap::new();

    let k1 = map.insert(1);
    let k2 = map.insert_with_key(|_, _| 2);

    assert_eq!(k1.index(), 0);
    assert_eq!(k2.index(), 1);

    assert_eq!(map.get(&k1), Some(&1));
    assert_eq!(map.get(&k2), Some(&2));
}

#[test]
fn remove_invalidates_key() {
    let mut map = SparseMap::new();

    let key = map.insert(10);
    let removed = map.remove(&key);

    assert_eq!(removed, Some(10));
    assert_eq!(map.get(&key), None);
    assert!(!map.contains(&key));
    assert_eq!(map.len(), 0);
}

#[test]
fn insert_reuse_bumps_version() {
    let mut map = SparseMap::new();

    let k1 = map.insert(1);
    map.remove(&k1);

    let k2 = map.insert(2);

    assert_eq!(k1.index(), k2.index());
    assert_ne!(k1.version(), k2.version());

    assert_eq!(map.get(&k1), None);
    assert_eq!(map.get(&k2), Some(&2));
}

#[test]
fn insert_with_key_reuse_bumps_version() {
    let mut map = SparseMap::new();

    let k1 = map.insert_with_key(|_, _| 1);
    map.remove(&k1);

    let k2 = map.insert_with_key(|_, _| 2);

    assert_eq!(k1.index(), k2.index());
    assert_ne!(k1.version(), k2.version());

    assert_eq!(map.get(&k1), None);
    assert_eq!(map.get(&k2), Some(&2));
}

#[test]
fn get_mut_works() {
    let mut map = SparseMap::new();

    let key = map.insert(5);
    *map.get_mut(&key).unwrap() = 99;

    assert_eq!(map.get(&key), Some(&99));
}

#[test]
fn removing_twice_is_safe() {
    let mut map = SparseMap::new();

    let key = map.insert(7);
    assert_eq!(map.remove(&key), Some(7));
    assert_eq!(map.remove(&key), None);
}

#[test]
fn invalid_index_returns_none() {
    let mut map = SparseMap::<usize>::new();

    let fake_key = Key { index: 999, version: 0 };
    assert_eq!(map.get(&fake_key), None);
    assert_eq!(map.get_mut(&fake_key), None);
    assert!(!map.contains(&fake_key));
}

#[test]
fn scope_gives_value_and_rest_of_map() {
    let mut map = SparseMap::new();

    let k1 = map.insert(1);
    let k2 = map.insert(2);
    let r = map.scope(&k1, |rest: SparseMap<i32>, v: i32| {
        assert!(!rest.contains(&k1));
        assert!(rest.contains(&k2));
        (rest, v + 10, v)
    });
    assert_eq!(r, Some(1));
    assert_eq!(map.get(&k1), Some(&11));
    assert_eq!(map.get(&k2), Some(&2));
}
