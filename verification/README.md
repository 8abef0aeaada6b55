# dhard

Sharded in-memory data structures, verified with Verus.

- `src/lib.rs`: `Shard` (an append-only item sequence), `ShardCollection` (round-robin
  distribution over shards), the read/write handles `ShardRef` and `ShardMutRef`, the
  `Writable`/`Readable` traits with `ShardWriter`/`ShardReader`, and the laws of the
  collection (pushed indices stay valid, round-robin fairness, read after write).
- `src/hashing.rs`: the seeded multiply-xor `ShardHasher` and `ShardBuildHasher`, the
  multiply-shift range reduction, and the `ShardKey` trait for keys hashed as one word.
- `src/dlht_map.rs`: `RwShardedDlhtMap`, whose shards index a side arena through
  cache-line-sized buckets of fingerprint slots; its structural checks are proved to
  pass on every map the API can build.
- `src/map.rs`: `RwShardedHashMap`, sharding keys over standard hash maps.
- `src/slot_map.rs`: `RwShardedSlotMap`, minting generational `SlotKey`s from one
  `slotmap` arena per shard and keeping each value in a vector indexed by its slot.
- `app/lib.rs`: thread-safe front ends (a `parking_lot` lock per structure, cache-line
  padded with `crossbeam-utils`) and std `Hasher`/`BuildHasher` adapters.
- `tests/`: scenario tests, and tests of the laws on concrete values.

Every structure in `src/` is a plain value mutated through `&mut self`; its contracts
describe each operation's effect on the structure's view (a `Map` or a sequence of
shards).
