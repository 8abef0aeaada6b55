use dhard::slot_map::{RwShardedSlotMap, SlotKey};

#[test]
fn slot_map_opt_test_insert_and_get_cloned() {
    let mut map: RwShardedSlotMap<String> = RwShardedSlotMap::new(8);
    assert!(map.is_empty());

    let k1 = map.insert("one".to_string());
    let k2 = map.insert("two".to_string());
    assert_eq!(map.len(), 2);

    assert_eq!(map.get_cloned(k1), Some("one".to_string()));
    assert_eq!(map.get_cloned(k2), Some("two".to_string()));
    assert!(map.contains(k1));
    assert!(map.contains(k2));
}

#[test]
fn test_remove_invalidates_key() {
    let mut map: RwShardedSlotMap<u32> = RwShardedSlotMap::new(1);

    let key = map.insert(10);
    assert_eq!(key.shard(), 0);
    assert_eq!(map.remove(key), Some(10));

    assert_eq!(map.get_cloned(key), None);
    assert!(!map.contains(key));
    assert_eq!(map.remove(key), None);
    assert!(map.is_empty());

    let recycled = map.insert(20);
    assert_ne!(recycled, key);
    assert_eq!(map.get_cloned(recycled), Some(20));
    assert_eq!(map.get_cloned(key), None);
    assert_eq!(map.len(), 1);
}

#[test]
fn test_churn_keeps_memory_bounded() {
    let mut map: RwShardedSlotMap<usize> = RwShardedSlotMap::with_capacity(4, 64);

    for round in 0..10 {
        let keys: Vec<SlotKey> = (0..100).map(|v| map.insert(v + round)).collect();
        assert_eq!(map.len(), 100);
        for (i, key) in keys.iter().enumerate() {
            assert_eq!(map.get_cloned(*key), Some(i + round));
        }
        for key in keys {
            assert!(map.remove(key).is_some());
        }
        assert!(map.is_empty());
    }
}

#[test]
fn test_keys_resolve_across_shards() {
    let mut map: RwShardedSlotMap<u64> = RwShardedSlotMap::new(4);
    let mut keys = Vec::new();
    for i in 0..100u64 {
        keys.push(map.insert(i));
    }
    for (i, key) in keys.iter().enumerate() {
        assert_eq!(map.get_cloned(*key), Some(i as u64));
    }
}

#[test]
fn slot_map_opt_test_default_has_shards() {
    let map: RwShardedSlotMap<u8> = RwShardedSlotMap::default();
    assert_eq!(map.num_shards(), 32);
    assert!(map.is_empty());
}

#[test]
fn slot_key_debug_string_names_shard_and_arena_key() {
    let mut m: RwShardedSlotMap<u32> = RwShardedSlotMap::new(2);
    let a = m.insert(1);
    let b = m.insert(2);
    assert_eq!(a.debug_string(), "SlotKey(0:DefaultKey(1v1))");
    assert_eq!(b.debug_string(), "SlotKey(1:DefaultKey(1v1))");
}

#[test]
fn slot_reused_after_remove_gets_next_generation() {
    let mut m: RwShardedSlotMap<u32> = RwShardedSlotMap::new(1);
    let a = m.insert(1);
    assert_eq!(m.remove(a), Some(1));
    let b = m.insert(2);
    assert_ne!(a, b);
    assert_eq!(b.debug_string(), "SlotKey(0:DefaultKey(1v3))");
}
