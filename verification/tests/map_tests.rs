use dhard::map::RwShardedHashMap;

#[test]
fn test_insert_and_get() {
    let mut map: RwShardedHashMap<u32, String> = RwShardedHashMap::new(8);
    assert!(map.is_empty());

    assert_eq!(map.insert(1, "one".to_string()), None);
    assert_eq!(map.insert(2, "two".to_string()), None);
    assert_eq!(map.len(), 2);

    assert_eq!(map.get_cloned(&1), Some("one".to_string()));
    assert_eq!(map.get_cloned(&3), None);
    assert!(map.contains_key(&2));
    assert!(!map.contains_key(&3));
}

#[test]
fn map_test_insert_updates_in_place() {
    let mut map: RwShardedHashMap<u32, u32> = RwShardedHashMap::new(4);

    assert_eq!(map.insert(7, 70), None);
    assert_eq!(map.len(), 1);
    assert_eq!(map.insert(7, 71), Some(70));
    assert_eq!(map.len(), 1);
    assert_eq!(map.get_cloned(&7), Some(71));
}

#[test]
fn test_remove_entries() {
    let mut map: RwShardedHashMap<u32, u32> = RwShardedHashMap::new(4);

    assert_eq!(map.remove(&1), None);
    map.insert(1, 10);
    assert_eq!(map.remove(&1), Some(10));
    assert_eq!(map.remove(&1), None);
    assert!(map.is_empty());

    map.insert(2, 20);
    assert_eq!(map.remove(&9), None);
    assert_eq!(map.len(), 1);
}

#[test]
fn map_test_many_entries_across_shards() {
    let mut map = RwShardedHashMap::<u64, u64>::with_capacity(16, 10_000);

    for i in 0..10_000u64 {
        assert_eq!(map.insert(i, i * 2), None);
    }
    assert_eq!(map.len(), 10_000);
    for i in 0..10_000u64 {
        assert_eq!(map.get_cloned(&i), Some(i * 2));
    }

    for i in 0..100u64 {
        assert_eq!(map.insert(i, i), Some(i * 2));
    }
    assert_eq!(map.len(), 10_000);
}

#[test]
fn test_get_and_get_mut_guards() {
    let mut map: RwShardedHashMap<u32, Vec<u32>> = RwShardedHashMap::new(4);

    assert!(map.get(&1).is_none());
    assert!(map.get_mut(&1).is_none());

    map.insert(1, vec![1]);
    {
        let v = map.get_mut(&1).unwrap();
        v.push(2);
    }
    {
        let v = map.get(&1).unwrap();
        assert_eq!(v.as_slice(), &[1, 2]);
    }

    assert_eq!(map.remove(&1), Some(vec![1, 2]));
    assert!(map.get(&1).is_none());
}

#[test]
fn map_test_default_has_shards() {
    let map: RwShardedHashMap<u8, u8> = RwShardedHashMap::default();
    assert_eq!(map.num_shards(), 32);
    assert!(map.is_empty());
}
