use std::collections::HashSet;

use dhard::dlht_map::{next_power_of_two, RwShardedDlhtMap};
use dhard::hashing::{reduce_range, ShardBuildHasher, ShardHasher, MULTIPLIER};
use dhard::map::RwShardedHashMap;
use dhard::slot_map::{round_robin_pick, RwShardedSlotMap, SlotKey};
use dhard::{
    is_power_of_two, Readable, Shard, ShardCollection, ShardExt, ShardReadFormat, ShardReader,
    ShardWriteFormat, ShardWriter, Writable,
};

#[derive(Debug, Clone, PartialEq)]
struct Word(u32);

impl Writable for Word {
    type Error = std::io::Error;

    fn write_to<W: std::io::Write>(&self, writer: &mut W) -> Result<u64, Self::Error> {
        writer.write_all(&self.0.to_le_bytes())?;
        Ok(4)
    }
}

impl Readable for Word {
    type Error = std::io::Error;

    fn read_from<R: std::io::Read>(reader: &mut R) -> Result<Self, Self::Error> {
        let mut buf = [0u8; 4];
        reader.read_exact(&mut buf)?;
        Ok(Word(u32::from_le_bytes(buf)))
    }
}

struct Chunked;

impl ShardExt<Vec<u32>> for Chunked {
    type Item = u32;

    fn shard_with(data: &Vec<u32>, threshold: usize) -> ShardCollection<u32> {
        let per = if threshold == 0 { 1 } else { threshold };
        let mut num_shards = (data.len() + per - 1) / per;
        if num_shards == 0 {
            num_shards = 1;
        }
        let mut shards = ShardCollection::new(num_shards);
        shards.extend(data.clone());
        shards
    }
}

#[test]
fn hasher_single_word_digest_is_exact() {
    let mut h = ShardHasher::new(0);
    h.write_u64(1);
    assert_eq!(h.finish(), 0x517c_c1b7_2722_0a95);

    let mut h = ShardHasher::new(0xff);
    h.write_u64(1);
    assert_eq!(h.finish(), MULTIPLIER ^ 0xff);

    let mut h = ShardHasher::new(0);
    h.write_u64(2);
    h.write_u64(3);
    let expected = ((2u64.wrapping_mul(MULTIPLIER)) ^ 3).wrapping_mul(MULTIPLIER);
    assert_eq!(h.finish(), expected);
}

#[test]
fn hash_word_matches_a_fresh_hasher() {
    let b = ShardBuildHasher { seed: 42 };
    let mut h = b.build_hasher();
    h.write_u64(7);
    assert_eq!(h.finish(), b.hash_word(7));
    assert_eq!(b.hash_word(7), 7u64.wrapping_mul(MULTIPLIER) ^ 42);
}

#[test]
fn signed_writes_absorb_their_bit_patterns() {
    let pairs: Vec<(ShardHasher, ShardHasher)> = vec![
        {
            let (mut a, mut b) = (ShardHasher::new(5), ShardHasher::new(5));
            a.write_i8(-1);
            b.write_u8(255);
            (a, b)
        },
        {
            let (mut a, mut b) = (ShardHasher::new(5), ShardHasher::new(5));
            a.write_i16(-2);
            b.write_u16(0xfffe);
            (a, b)
        },
        {
            let (mut a, mut b) = (ShardHasher::new(5), ShardHasher::new(5));
            a.write_i32(-3);
            b.write_u32(0xffff_fffd);
            (a, b)
        },
        {
            let (mut a, mut b) = (ShardHasher::new(5), ShardHasher::new(5));
            a.write_i64(-1);
            b.write_u64(u64::MAX);
            (a, b)
        },
        {
            let (mut a, mut b) = (ShardHasher::new(5), ShardHasher::new(5));
            a.write_isize(-1);
            b.write_usize(usize::MAX);
            (a, b)
        },
    ];
    for (a, b) in pairs {
        assert_eq!(a.finish(), b.finish());
    }
    let mut small = ShardHasher::new(0);
    small.write_u8(3);
    let mut wide = ShardHasher::new(0);
    wide.write_u64(3);
    assert_eq!(small.finish(), wide.finish());
}

#[test]
fn byte_writes_absorb_zero_padded_chunks() {
    let bytes: [u8; 9] = [1, 2, 3, 4, 5, 6, 7, 8, 9];
    let mut h = ShardHasher::new(11);
    h.write(&bytes);

    let mut expected = ShardHasher::new(11);
    expected.mix(u64::from_ne_bytes([1, 2, 3, 4, 5, 6, 7, 8]));
    expected.mix(u64::from_ne_bytes([9, 0, 0, 0, 0, 0, 0, 0]));
    assert_eq!(h.finish(), expected.finish());
    assert_ne!(h.finish(), ShardHasher::new(11).finish());

    let mut empty = ShardHasher::new(11);
    empty.write(&[]);
    assert_eq!(empty.finish(), 11);
}

#[test]
fn range_reduction_is_exact() {
    assert_eq!(reduce_range(0x8000_0000_0000_0000, 10), 5);
    assert_eq!(reduce_range(u64::MAX, 7), 6);
    assert_eq!(reduce_range(0, 7), 0);
    assert_eq!(reduce_range(0x0000_0001_0000_0000, 3), 0);
}

#[test]
fn powers_of_two() {
    assert_eq!(next_power_of_two(0), 1);
    assert_eq!(next_power_of_two(1), 1);
    assert_eq!(next_power_of_two(5), 8);
    assert_eq!(next_power_of_two(16), 16);
    assert!(!is_power_of_two(0));
    assert!(is_power_of_two(1));
    assert!(!is_power_of_two(6));
    assert!(is_power_of_two(64));
}

#[test]
fn round_robin_pick_advances_and_wraps() {
    let mut t: usize = 5;
    assert_eq!(round_robin_pick(&mut t, 4), Some(1));
    assert_eq!(t, 6);
    assert_eq!(round_robin_pick(&mut t, 4), Some(2));
    let mut t: usize = 7;
    assert_eq!(round_robin_pick(&mut t, 3), Some(1));
    assert_eq!(t, 8);
    let mut t: usize = 9;
    assert_eq!(round_robin_pick(&mut t, 0), None);
    assert_eq!(t, 9);
    let mut t: usize = usize::MAX;
    assert_eq!(round_robin_pick(&mut t, 4), Some(3));
    assert_eq!(t, 0);
}

#[test]
fn pushed_indices_stay_valid() {
    let mut c: ShardCollection<u32> = ShardCollection::new(3);
    let mut handed_out = Vec::new();
    for i in 0..10u32 {
        handed_out.push((c.push(i).unwrap(), i));
    }
    c.extend((100..150).collect());
    for i in 10..20u32 {
        c.push(i);
    }
    for ((s, idx), v) in handed_out {
        assert_eq!(c.get_shard(s).unwrap().get_cloned(idx), Some(v));
    }
    assert_eq!(c.len(), 70);
}

#[test]
fn round_robin_is_fair_over_a_window() {
    let mut c: ShardCollection<u32> = ShardCollection::new(4);
    c.push(0);
    c.push(1);
    let before: Vec<usize> = (0..4).map(|s| c.get_shard(s).unwrap().len()).collect();
    for i in 0..4u32 {
        c.push(i);
    }
    for s in 0..4 {
        assert_eq!(c.get_shard(s).unwrap().len(), before[s] + 1);
    }
}

#[test]
fn extend_matches_pushes_on_small_batches() {
    let mut a: ShardCollection<u32> = ShardCollection::new(5);
    let mut b: ShardCollection<u32> = ShardCollection::new(5);
    a.push(99);
    b.push(99);
    a.extend((0..7).collect());
    for i in 0..7u32 {
        b.push(i);
    }
    for s in 0..5 {
        assert_eq!(a.get_shard(s).unwrap().items(), b.get_shard(s).unwrap().items());
    }
}

#[test]
fn get_shard_mut_changes_one_shard() {
    let mut c: ShardCollection<u32> = ShardCollection::new(2);
    c.push(1);
    c.push(2);
    assert!(c.get_shard_mut(2).is_none());
    c.get_shard_mut(0).unwrap().push(7);
    assert_eq!(c.get_shard(0).unwrap().items().as_slice(), &[1, 7]);
    assert_eq!(c.get_shard(1).unwrap().items().as_slice(), &[2]);
    assert_eq!(c.len(), 3);
    assert_eq!(c.push(3), Some((0, 2)));
}

#[test]
fn shard_ext_defaults_to_threshold() {
    let data: Vec<u32> = (0..100).collect();
    let shards = Chunked::shard(&data);
    assert_eq!(shards.len(), 100);
    assert_eq!(shards.num_shards(), 4);
    assert_eq!(<Chunked as ShardExt<Vec<u32>>>::THRESHOLD, 32);
    let fine = Chunked::shard_with(&data, 10);
    assert_eq!(fine.num_shards(), 10);
}

#[test]
fn shard_extend_keeps_order() {
    let mut s: Shard<u32> = Shard::with_capacity(2);
    s.push(1);
    s.extend(vec![2, 3, 4]);
    assert_eq!(s.items().as_slice(), &[1, 2, 3, 4]);
    assert_eq!(s.push(5), 4);
}

#[test]
fn hash_map_read_after_write() {
    let mut m: RwShardedHashMap<u64, u64> = RwShardedHashMap::new(3);
    for k in 0..20u64 {
        m.insert(k, k + 100);
    }
    assert_eq!(m.insert(5, 1), Some(105));
    assert_eq!(m.get(&5), Some(&1));
    assert_eq!(m.get(&6), Some(&106));
    *m.get_mut(&6).unwrap() = 2;
    assert_eq!(m.get_cloned(&6), Some(2));
    assert_eq!(m.get(&7), Some(&107));
    assert_eq!(m.remove(&5), Some(1));
    assert!(!m.contains_key(&5));
    assert_eq!(m.len(), 19);
    let empty: RwShardedHashMap<u64, u64> = RwShardedHashMap::new(0);
    assert_eq!(empty.get(&1), None);
    assert!(!empty.contains_key(&1));
    assert!(empty.is_empty());
}

#[test]
fn dlht_map_read_after_write_and_checks() {
    let mut m: RwShardedDlhtMap<u32, u32> = RwShardedDlhtMap::new(3);
    assert!(m.check_invariants());
    assert_eq!(m.try_insert(1, 10), Ok(None));
    assert_eq!(m.try_insert(1, 11), Ok(Some(10)));
    for k in 2..500u32 {
        assert_eq!(m.insert(k, k * 10), None);
    }
    assert!(m.check_invariants());
    assert_eq!(m.get(&1), Some(&11));
    assert_eq!(m.get(&499), Some(&4990));
    assert_eq!(m.remove(&1), Some(11));
    assert_eq!(m.get(&1), None);
    assert_eq!(m.get(&2), Some(&20));
    assert_eq!(m.len(), 498);
    assert!(m.check_invariants());
    let empty: RwShardedDlhtMap<u32, u32> = RwShardedDlhtMap::new(0);
    assert_eq!(empty.get_cloned(&1), None);
    assert!(empty.check_invariants());
}

#[test]
fn slot_keys_are_distinct_and_round_robin() {
    let mut m: RwShardedSlotMap<u32> = RwShardedSlotMap::new(3);
    let keys: Vec<SlotKey> = (0..30u32).map(|v| m.insert(v)).collect();
    let distinct: HashSet<SlotKey> = keys.iter().copied().collect();
    assert_eq!(distinct.len(), 30);
    for (i, k) in keys.iter().enumerate() {
        assert_eq!(k.shard(), i % 3);
        assert_eq!(m.get_cloned(*k), Some(i as u32));
    }
    assert_eq!(m.next_shard_load(), Some(10));
    assert_eq!(m.remove(keys[4]), Some(4));
    assert!(!m.contains(keys[4]));
    assert!(m.contains(keys[5]));
    assert_eq!(m.len(), 29);
}

#[test]
fn writer_writes_every_item_in_order() {
    let mut shard: Shard<Word> = Shard::new();
    shard.push(Word(1));
    shard.push(Word(0x0203_0405));
    shard.push(Word(7));
    let mut w: ShardWriter<Vec<u8>, &str, std::io::Error> = ShardWriter::new(Vec::new(), "meta");
    assert_eq!(w.data_size(), 0);
    w.write_shard(&shard).unwrap();
    assert_eq!(w.data_size(), 12);
    assert_eq!(w.checksum(), 0);
    assert_eq!(*w.data(), "meta");
    *w.data_mut() = "other";
    assert_eq!(*w.data(), "other");
    let bytes = w.into_writer();
    assert_eq!(bytes, vec![1, 0, 0, 0, 5, 4, 3, 2, 7, 0, 0, 0]);

    let mut r: ShardReader<&[u8], u8, std::io::Error> = ShardReader::new(bytes.as_slice(), 9);
    let back: Shard<Word> = r.read_shard(3).unwrap();
    assert_eq!(back.items(), shard.items());
    assert_eq!(r.data_size(), 12);
    assert_eq!(*r.data(), 9);
    *r.data_mut() = 10;
    assert_eq!(r.checksum(), 0);
    assert_eq!(r.into_reader().len(), 0);

    let mut short: ShardReader<&[u8], (), std::io::Error> = ShardReader::new(&bytes[..8], ());
    let failed: Result<Shard<Word>, std::io::Error> = short.read_shard(3);
    assert!(failed.is_err());
    assert_eq!(short.data_size(), 8);
}

#[test]
fn signed_and_bool_keys() {
    let mut m: RwShardedHashMap<i32, &str> = RwShardedHashMap::new(4);
    assert_eq!(m.insert(-1, "minus one"), None);
    assert_eq!(m.insert(1, "one"), None);
    assert_eq!(m.get_cloned(&-1), Some("minus one"));
    assert_eq!(m.get_cloned(&1), Some("one"));
    let mut d: RwShardedDlhtMap<bool, u8> = RwShardedDlhtMap::new(2);
    assert_eq!(d.insert(true, 1), None);
    assert_eq!(d.insert(false, 0), None);
    assert_eq!(d.insert(true, 2), Some(1));
    assert_eq!(d.len(), 2);
    let b = ShardBuildHasher { seed: 3 };
    let mut h = b.build_hasher();
    h.write_i32(-1);
    assert_eq!(h.finish(), b.hash_word(0xffff_ffff));
}

#[test]
fn remove_undoes_a_fresh_insert() {
    let mut s: RwShardedSlotMap<u32> = RwShardedSlotMap::new(2);
    let a = s.insert(1);
    let b = s.insert(2);
    let c = s.insert(3);
    assert_eq!(s.remove(c), Some(3));
    assert_eq!(s.len(), 2);
    assert_eq!(s.get_cloned(a), Some(1));
    assert_eq!(s.get_cloned(b), Some(2));
    assert!(!s.contains(c));

    let mut m: RwShardedHashMap<u64, u64> = RwShardedHashMap::new(2);
    m.insert(1, 10);
    assert_eq!(m.insert(2, 20), None);
    assert_eq!(m.remove(&2), Some(20));
    assert_eq!(m.len(), 1);
    assert_eq!(m.get_cloned(&1), Some(10));
    assert!(!m.contains_key(&2));
}

#[test]
fn default_hasher_is_fresh_and_unseeded() {
    let h = ShardHasher::default();
    assert_eq!(h.finish(), 0);
    let mut a = ShardHasher::default();
    a.write_u64(5);
    let mut b = ShardHasher::new(0);
    b.write_u64(5);
    assert_eq!(a.finish(), b.finish());
}
