use dhard::dlht_map::RwShardedDlhtMap;

#[test]
fn dlht_map_test_insert_and_get_cloned() {
    let mut map: RwShardedDlhtMap<u32, String> = RwShardedDlhtMap::new(8);
    assert!(map.is_empty());

    assert_eq!(map.insert(1, "one".to_string()), None);
    assert_eq!(map.insert(2, "two".to_string()), None);
    assert_eq!(map.len(), 2);

    assert_eq!(map.get_cloned(&1), Some("one".to_string()));
    assert_eq!(map.get_cloned(&3), None);
    assert!(map.contains_key(&2));
    assert!(!map.contains_key(&3));
}

#[test]
fn dlht_map_test_insert_updates_in_place() {
    let mut map: RwShardedDlhtMap<u32, u32> = RwShardedDlhtMap::new(4);

    assert_eq!(map.insert(7, 70), None);
    assert_eq!(map.len(), 1);
    assert_eq!(map.insert(7, 71), Some(70));
    assert_eq!(map.len(), 1);
    assert_eq!(map.get_cloned(&7), Some(71));
}

#[test]
fn test_remove_reclaims_slot_and_invalidates_key() {
    let mut map: RwShardedDlhtMap<u32, u32> = RwShardedDlhtMap::with_capacity(2, 64);

    assert_eq!(map.remove(&1), None);
    map.insert(1, 10);
    map.insert(2, 20);
    assert_eq!(map.remove(&1), Some(10));

    assert_eq!(map.get_cloned(&1), None);
    assert!(!map.contains_key(&1));
    assert_eq!(map.remove(&1), None);
    assert_eq!(map.len(), 1);

    for i in 0..32u32 {
        map.insert(100 + i, i);
    }
    assert_eq!(map.len(), 33);
    assert_eq!(map.get_cloned(&2), Some(20));
    assert_eq!(map.get_cloned(&131), Some(31));
}

#[test]
fn dlht_map_test_many_entries_across_shards() {
    let mut map = RwShardedDlhtMap::<u64, u64>::with_capacity(16, 10_000);

    for i in 0..10_000u64 {
        assert_eq!(map.insert(i, i * 2), None);
    }
    assert_eq!(map.len(), 10_000);
    for i in 0..10_000u64 {
        assert_eq!(map.get_cloned(&i), Some(i * 2));
    }
}

#[test]
fn test_growth_preserves_entries() {
    let mut map = RwShardedDlhtMap::<usize, usize>::new(2);

    for i in 0..50_000 {
        assert_eq!(map.insert(i, i * 3), None);
    }
    assert_eq!(map.len(), 50_000);
    for i in 0..50_000 {
        assert_eq!(map.get_cloned(&i), Some(i * 3));
    }

    for i in (0..50_000).step_by(7) {
        assert_eq!(map.remove(&i), Some(i * 3));
    }
    assert_eq!(map.get_cloned(&0), None);
    assert_eq!(map.get_cloned(&1), Some(3));
}

#[test]
fn test_churn_recycles_slots() {
    let mut map: RwShardedDlhtMap<usize, usize> = RwShardedDlhtMap::with_capacity(4, 128);

    for round in 0..10 {
        for v in 0..200 {
            map.insert(v + round * 1000, v);
        }
        assert_eq!(map.len(), 200);
        for v in 0..200 {
            assert_eq!(map.remove(&(v + round * 1000)), Some(v));
        }
        assert!(map.is_empty());
    }
}

#[test]
fn test_get_and_guards() {
    let mut map: RwShardedDlhtMap<u32, Vec<u32>> = RwShardedDlhtMap::new(4);

    assert!(map.get(&1).is_none());

    map.insert(1, vec![1]);
    {
        let guard = map.get(&1).unwrap();
        assert_eq!(guard.as_slice(), &[1]);
    }
    assert_eq!(map.get_cloned(&1), Some(vec![1]));
}

#[test]
fn dlht_map_test_default_has_shards() {
    let map: RwShardedDlhtMap<u8, u8> = RwShardedDlhtMap::default();
    assert_eq!(map.num_shards(), 32);
    assert!(map.is_empty());
}

#[test]
fn test_chain_invariants_hold_under_churn() {
    let mut map = RwShardedDlhtMap::<usize, usize>::with_capacity(2, 4_096);

    let mut state = 0x1234_5678_u64;
    let mut next = move || {
        state ^= state << 13;
        state ^= state >> 7;
        state ^= state << 17;
        state
    };
    let mut live = std::collections::HashSet::new();

    for step in 0..20_000usize {
        let k = (next() % 8_192) as usize;
        if live.contains(&k) && step % 3 == 0 {
            assert_eq!(map.remove(&k), Some(k * 2));
            live.remove(&k);
        } else {
            map.insert(k, k * 2);
            live.insert(k);
        }
        if step % 512 == 0 {
            assert!(map.check_invariants());
        }
    }

    assert_eq!(map.len(), live.len());
    for k in &live {
        assert_eq!(map.get_cloned(k), Some(k * 2));
    }
    assert!(map.check_invariants());
}
