//! A hash map whose shards index their entries through cache-line-sized buckets of
//! fingerprint slots: a key hashes once, the digest's high half selects the shard and
//! its low half the primary bin, and a lookup scans at most a short chain of buckets
//! starting at that bin, comparing 32-bit fingerprints before touching the side arena
//! that holds the entries. Removals reclaim both the slot and the arena position at once.
use vstd::prelude::*;
use vstd::pervasive::cloned;
use crate::hashing::{ShardBuildHasher, ShardKey, digest_spec, reduce_range, reduce_spec, lemma_reduce_bound};

verus! {

/// Fingerprint slots per bucket.
pub const SLOTS_PER_BUCKET: usize = 7;
/// Buckets scanned from a key's primary bin.
pub const CHAIN_DEPTH: usize = 4;
/// Numerator of the occupancy ratio above which a shard's table doubles.
pub const GROW_THRESHOLD_NUM: usize = 3;
/// Denominator of the occupancy ratio above which a shard's table doubles.
pub const GROW_THRESHOLD_DEN: usize = 5;
/// Low bits of a bucket's `meta`: one occupancy bit per slot.
const OCC_MASK: u64 = 0x7f;
/// Position of the high-water frontier inside a bucket's `meta`.
const HW_SHIFT: u64 = 8;

// ---------------------------------------------------------------------------------
// Bucket metadata
// ---------------------------------------------------------------------------------

/// The occupancy bits of a bucket's metadata word.
pub open spec fn occ_spec(meta: u64) -> u64 {
    meta & 0x7f
}

/// The high-water frontier of a bucket: the number of slots written since the bucket
/// was created.
pub open spec fn hw_spec(meta: u64) -> u64 {
    (meta >> 8u64) & 0x7f
}

/// Whether slot `s` is marked occupied in `meta`.
pub open spec fn occupied_bit(meta: u64, s: int) -> bool {
    0 <= s < 7 && ((meta >> (s as u64)) & 1u64) == 1u64
}

fn occ_of(meta: u64) -> (r: u64)
    ensures
        r == occ_spec(meta),
{
    meta & OCC_MASK
}

fn hw_of(meta: u64) -> (r: u64)
    ensures
        r == hw_spec(meta),
        r <= 0x7f,
{
    proof {
        assert((meta >> 8u64) & 0x7f <= 0x7f) by (bit_vector);
    }
    (meta >> HW_SHIFT) & OCC_MASK
}

/// Whether slot `s` of a bucket with metadata `meta` is occupied.
fn is_occupied(meta: u64, s: usize) -> (r: bool)
    requires
        s < 7,
    ensures
        r == occupied_bit(meta, s as int),
{
    let occ = occ_of(meta);
    let sh = s as u64;
    proof {
        assert(sh < 7 ==> (((meta & 0x7f) >> sh) & 1u64 == 1u64) == ((meta >> sh) & 1u64 == 1u64))
            by (bit_vector);
    }
    ((occ >> sh) & 1u64) == 1u64
}

/// Setting occupancy bit `s` (below 7) leaves the frontier and every other occupancy bit alone.
proof fn lemma_set_bit(meta: u64, s: u64, t: u64)
    requires
        s < 7,
        t < 7,
    ensures
        (((meta | (1u64 << s)) >> t) & 1u64 == 1u64) == (t == s || (meta >> t) & 1u64 == 1u64),
        ((meta | (1u64 << s)) >> 8u64) & 0x7f == (meta >> 8u64) & 0x7f,
        (meta | (1u64 << s)) & !0x7f7fu64 == meta & !0x7f7fu64,
{
    assert(s < 7 ==> (meta | (1u64 << s)) & !0x7f7fu64 == meta & !0x7f7fu64) by (bit_vector);
    assert(s < 7 && t < 7 ==> ((((meta | (1u64 << s)) >> t) & 1u64 == 1u64) == (t == s || (meta
        >> t) & 1u64 == 1u64))) by (bit_vector);
    assert(s < 7 ==> ((meta | (1u64 << s)) >> 8u64) & 0x7f == (meta >> 8u64) & 0x7f)
        by (bit_vector);
}

/// Clearing occupancy bit `s` (below 7) leaves the frontier and every other occupancy bit alone.
proof fn lemma_clear_bit(meta: u64, s: u64, t: u64)
    requires
        s < 7,
        t < 7,
    ensures
        (((meta & !(1u64 << s)) >> t) & 1u64 == 1u64) == (t != s && (meta >> t) & 1u64 == 1u64),
        ((meta & !(1u64 << s)) >> 8u64) & 0x7f == (meta >> 8u64) & 0x7f,
        (meta & !(1u64 << s)) & !0x7f7fu64 == meta & !0x7f7fu64,
{
    assert(s < 7 ==> (meta & !(1u64 << s)) & !0x7f7fu64 == meta & !0x7f7fu64) by (bit_vector);
    assert(s < 7 && t < 7 ==> ((((meta & !(1u64 << s)) >> t) & 1u64 == 1u64) == (t != s && (meta
        >> t) & 1u64 == 1u64))) by (bit_vector);
    assert(s < 7 ==> ((meta & !(1u64 << s)) >> 8u64) & 0x7f == (meta >> 8u64) & 0x7f)
        by (bit_vector);
}

/// Replacing the frontier field leaves the occupancy bits alone.
proof fn lemma_set_frontier(meta: u64, h: u64, t: u64)
    requires
        h <= 7,
        t < 7,
    ensures
        ((((meta & !0x7f00u64) | (h << 8u64)) >> t) & 1u64 == 1u64) == ((meta >> t) & 1u64
            == 1u64),
        (((meta & !0x7f00u64) | (h << 8u64)) >> 8u64) & 0x7f == h,
        ((meta & !0x7f00u64) | (h << 8u64)) & !0x7f7fu64 == meta & !0x7f7fu64,
{
    assert(h <= 7 ==> ((meta & !0x7f00u64) | (h << 8u64)) & !0x7f7fu64 == meta & !0x7f7fu64) by (bit_vector);
    assert(h <= 7 && t < 7 ==> (((((meta & !0x7f00u64) | (h << 8u64)) >> t) & 1u64 == 1u64) == ((
    meta >> t) & 1u64 == 1u64))) by (bit_vector);
    assert(h <= 7 ==> (((meta & !0x7f00u64) | (h << 8u64)) >> 8u64) & 0x7f == h) by (bit_vector);
}

// ---------------------------------------------------------------------------------
// Slots and buckets
// ---------------------------------------------------------------------------------

/// One fingerprint slot: a nonzero fingerprint in the high 32 bits, an arena index in
/// the low 32 bits. The all-zero word marks a slot never written.
#[derive(Clone, Copy)]
struct Slot(u64);

impl Slot {
    spec fn fp_spec(self) -> u32 {
        (self.0 >> 32u64) as u32
    }

    spec fn idx_spec(self) -> u32 {
        self.0 as u32
    }

    fn empty() -> (s: Slot)
        ensures
            s.0 == 0,
    {
        Slot(0)
    }

    fn pack(fp: u32, idx: u32) -> (s: Slot)
        ensures
            s.fp_spec() == fp,
            s.idx_spec() == idx,
            fp != 0 ==> s.0 != 0,
    {
        let w = ((fp as u64) << 32u64) | idx as u64;
        proof {
            let f = fp as u64;
            let i = idx as u64;
            assert(f < 0x1_0000_0000 && i < 0x1_0000_0000 ==> ((((f << 32u64) | i) >> 32u64)
                == f && ((f << 32u64) | i) & 0xffff_ffff == i && (f != 0 ==> ((f << 32u64) | i)
                != 0))) by (bit_vector);
            assert(w as u32 == (w & 0xffff_ffff) as u32) by (bit_vector);
        }
        Slot(w)
    }

    fn fp(&self) -> (r: u32)
        ensures
            r == self.fp_spec(),
    {
        (self.0 >> 32u64) as u32
    }

    fn idx(&self) -> (r: u32)
        ensures
            r == self.idx_spec(),
    {
        self.0 as u32
    }

    fn is_empty(&self) -> (r: bool)
        ensures
            r == (self.0 == 0),
    {
        self.0 == 0
    }
}

/// A bucket: a metadata word (occupancy bits and high-water frontier) and seven slots.
#[derive(Clone, Copy)]
struct Bucket {
    meta: u64,
    slots: [Slot; SLOTS_PER_BUCKET],
}

impl Bucket {
    /// The frontier is within the bucket, every occupied slot lies below it, no slot at
    /// or beyond it was ever written, and `meta` holds nothing but its two fields.
    spec fn wf(self) -> bool {
        &&& hw_spec(self.meta) <= 7
        &&& forall|s: int| #[trigger] occupied_bit(self.meta, s) ==> s < hw_spec(self.meta)
        &&& forall|s: int| hw_spec(self.meta) <= s < 7 ==> #[trigger] self.slots@[s].0 == 0
        &&& self.meta & !0x7f7fu64 == 0
    }

    fn new() -> (b: Bucket)
        ensures
            b.wf(),
            hw_spec(b.meta) == 0,
            forall|s: int| !#[trigger] occupied_bit(b.meta, s),
    {
        proof {
            assert forall|s: int| !#[trigger] occupied_bit(0u64, s) by {
                if 0 <= s < 7 {
                    let t = s as u64;
                    assert((0u64 >> t) & 1u64 == 0u64) by (bit_vector);
                }
            }
            assert((0u64 >> 8u64) & 0x7f == 0u64) by (bit_vector);
            assert(0u64 & !0x7f7fu64 == 0u64) by (bit_vector);
        }
        Bucket {
            meta: 0,
            slots: [Slot::empty(), Slot::empty(), Slot::empty(), Slot::empty(), Slot::empty(), Slot::empty(), Slot::empty()],
        }
    }
}

/// The fingerprint of a digest: its high half, with zero mapped to one so that a
/// written slot is never the all-zero word.
pub open spec fn fp_spec(digest: u64) -> u32 {
    let f = (digest >> 32u64) as u32;
    if f == 0 {
        1u32
    } else {
        f
    }
}

fn fp_of(digest: u64) -> (r: u32)
    ensures
        r == fp_spec(digest),
        r != 0,
{
    let fp = (digest >> 32u64) as u32;
    if fp == 0 {
        1
    } else {
        fp
    }
}

/// The primary bin of a digest in a table with index mask `mask`: its low half, masked.
pub open spec fn bin_spec(digest: u64, mask: usize) -> usize {
    ((digest as u32) as usize) & mask
}

fn bin_of(digest: u64, mask: usize) -> (r: usize)
    ensures
        r == bin_spec(digest, mask),
        r <= mask,
{
    let r = (digest as u32 as usize) & mask;
    proof {
        let x = digest as u32 as usize;
        assert(x & mask <= mask) by (bit_vector);
    }
    r
}

proof fn lemma_bin_le(digest: u64, mask: usize)
    ensures
        bin_spec(digest, mask) <= mask,
{
    let x = digest as u32 as usize;
    assert(x & mask <= mask) by (bit_vector);
}

/// The `d`-th bucket of the chain rooted at `bin`.
pub open spec fn chain_spec(bin: usize, d: int, mask: usize) -> usize {
    ((bin + d) as usize) & mask
}

proof fn lemma_chain_le(bin: usize, d: int, mask: usize)
    ensures
        chain_spec(bin, d, mask) <= mask,
{
    let x = (bin + d) as usize;
    assert(x & mask <= mask) by (bit_vector);
}

/// Every slot of a bucket is occupied.
pub open spec fn bucket_full(meta: u64) -> bool {
    forall|t: int| 0 <= t < 7 ==> #[trigger] occupied_bit(meta, t)
}

/// Bucket `b` is one of the chain rooted at `bin`.
pub open spec fn in_chain(bin: usize, b: usize, mask: usize) -> bool {
    exists|d: int| 0 <= d < 4 && chain_spec(bin, d, mask) == b
}

/// `nb` is `ob` with slot `t` of bucket `b` written with `(fp, idx)` and claimed: the
/// slot was free, it is now occupied, and nothing else changed but the frontier.
spec fn placed_at(ob: Seq<Bucket>, nb: Seq<Bucket>, b: usize, t: int, fp: u32, idx: u32) -> bool {
    &&& 0 <= b < ob.len()
    &&& 0 <= t < 7
    &&& nb.len() == ob.len()
    &&& !occupied_bit(ob[b as int].meta, t)
    &&& forall|c: int| 0 <= c < ob.len() && c != b ==> #[trigger] nb[c] == ob[c]
    &&& nb[b as int].slots@[t].fp_spec() == fp
    &&& nb[b as int].slots@[t].idx_spec() == idx
    &&& forall|u: int| 0 <= u < 7 && u != t ==> #[trigger] nb[b as int].slots@[u] == ob[b as int].slots@[u]
    &&& forall|u: int| #[trigger] occupied_bit(nb[b as int].meta, u) == (occupied_bit(ob[b as int].meta, u) || u == t)
    &&& hw_spec(nb[b as int].meta) as int == if t == hw_spec(ob[b as int].meta) as int {
        hw_spec(ob[b as int].meta) + 1
    } else {
        hw_spec(ob[b as int].meta) as int
    }
}

/// Slot `t` of bucket `b` is where a placement into the chain rooted at `bin` goes: `b`
/// is the first bucket of the chain that is not full, and `t` its lowest free slot.
spec fn first_room(buckets: Seq<Bucket>, bin: usize, mask: usize, b: usize, t: int) -> bool {
    &&& exists|d: int|
        0 <= d < 4 && chain_spec(bin, d, mask) == b && forall|d2: int|
            0 <= d2 < d ==> #[trigger] bucket_full(buckets[chain_spec(bin, d2, mask) as int].meta)
    &&& forall|u: int| 0 <= u < t ==> #[trigger] occupied_bit(buckets[b as int].meta, u)
}

/// `nb` is `ob` with `(fp, idx)` placed the way a placement into the chain rooted at
/// `bin` goes: into the `d`-th bucket of the chain, the first one not full, at its
/// lowest free slot `t`.
spec fn placed_first(ob: Seq<Bucket>, nb: Seq<Bucket>, bin: usize, mask: usize, d: int, t: int, fp: u32, idx: u32) -> bool {
    let b = chain_spec(bin, d, mask);
    &&& 0 <= d < 4
    &&& placed_at(ob, nb, b, t, fp, idx)
    &&& forall|d2: int| 0 <= d2 < d ==> #[trigger] bucket_full(ob[chain_spec(bin, d2, mask) as int].meta)
    &&& forall|u: int| 0 <= u < t ==> #[trigger] occupied_bit(ob[b as int].meta, u)
    &&& t <= hw_spec(ob[b as int].meta)
}

/// The bucket a placement into the chain rooted at `bin` picks in a table built from
/// scratch, given how many slots each bucket has filled: the first bucket of the chain
/// not yet full, if any.
spec fn first_open(fill: Seq<int>, bin: usize, mask: usize) -> Option<int> {
    if fill[chain_spec(bin, 0, mask) as int] < 7 {
        Some(chain_spec(bin, 0, mask) as int)
    } else if fill[chain_spec(bin, 1, mask) as int] < 7 {
        Some(chain_spec(bin, 1, mask) as int)
    } else if fill[chain_spec(bin, 2, mask) as int] < 7 {
        Some(chain_spec(bin, 2, mask) as int)
    } else if fill[chain_spec(bin, 3, mask) as int] < 7 {
        Some(chain_spec(bin, 3, mask) as int)
    } else {
        None
    }
}

/// How many slots each bucket of a fresh table of `mask + 1` buckets has filled after
/// placing, in arena order, the live entries among the first `i` arena positions; `None`
/// once an entry finds its whole chain full.
spec fn fill_upto<K: ShardKey, V>(entries: Seq<Option<(K, V)>>, seed: u64, mask: usize, i: int) -> Option<Seq<int>>
    decreases i,
{
    if i <= 0 {
        Some(Seq::new(mask as nat + 1, |b: int| 0int))
    } else {
        match fill_upto(entries, seed, mask, i - 1) {
            None => None,
            Some(f) => match entries[i - 1] {
                None => Some(f),
                Some(e) => match first_open(f, bin_spec(key_digest(seed, e.0), mask), mask) {
                    Some(b) => Some(f.update(b, f[b] + 1)),
                    None => None,
                },
            },
        }
    }
}

/// Rebuilding the table with `len` buckets finds a slot for every live entry.
spec fn rebuild_fits<K: ShardKey, V>(entries: Seq<Option<(K, V)>>, seed: u64, len: usize) -> bool {
    fill_upto(entries, seed, (len - 1) as usize, entries.len() as int) is Some
}

/// Doubling a table of `len` buckets, again and again while the result stays within
/// [`MAX_TABLE_LEN`], reaches a size whose rebuild fits every live entry.
spec fn grow_fits<K: ShardKey, V>(entries: Seq<Option<(K, V)>>, seed: u64, len: int) -> bool
    decreases MAX_TABLE_LEN - len,
{
    if len < 1 || len > MAX_TABLE_LEN / 2 {
        false
    } else if rebuild_fits(entries, seed, (2 * len) as usize) {
        true
    } else {
        grow_fits(entries, seed, 2 * len)
    }
}

proof fn lemma_fill_vacant<K: ShardKey, V>(entries: Seq<Option<(K, V)>>, seed: u64, mask: usize, i: int)
    requires
        0 <= i <= entries.len(),
    ensures
        fill_upto(entries.push(None), seed, mask, i) == fill_upto(entries, seed, mask, i),
        i == entries.len() ==> fill_upto(entries.push(None), seed, mask, entries.len() + 1int) == fill_upto(entries, seed, mask, entries.len() as int),
    decreases i,
{
    if i > 0 {
        lemma_fill_vacant(entries, seed, mask, i - 1);
        assert(entries.push(None)[i - 1] == entries[i - 1]);
    }
    if i == entries.len() {
        let e2 = entries.push(None);
        assert(e2[entries.len() as int] is None);
        assert(fill_upto(e2, seed, mask, entries.len() + 1int) == fill_upto(e2, seed, mask, entries.len() as int));
    }
}

/// A vacant arena position at the end changes no rebuild.
proof fn lemma_grow_fits_vacant<K: ShardKey, V>(entries: Seq<Option<(K, V)>>, seed: u64, len: int)
    ensures
        grow_fits(entries.push(None), seed, len) == grow_fits(entries, seed, len),
    decreases MAX_TABLE_LEN - len,
{
    if !(len < 1 || len > MAX_TABLE_LEN / 2) {
        lemma_fill_vacant(entries, seed, ((2 * len) as usize - 1) as usize, entries.len() as int);
        lemma_grow_fits_vacant(entries, seed, 2 * len);
    }
}

/// The `d`-th bucket of the chain of a key with digest `digest`, in a table whose mask
/// is `mask`.
pub open spec fn chain_bucket(digest: u64, d: int, mask: usize) -> usize {
    chain_spec(bin_spec(digest, mask), d, mask)
}

/// Some bucket of `k2`'s chain is the `d`-th bucket of `kk`'s chain, in a table whose
/// mask is `mask`.
pub open spec fn shares_bucket<K: ShardKey>(seed: u64, k2: K, kk: K, d: int, mask: usize) -> bool {
    exists|e: int| 0 <= e < 4 && chain_bucket(key_digest(seed, k2), e, mask) == chain_bucket(key_digest(seed, kk), d, mask)
}

/// In a table whose mask is `mask`, each of the four buckets of `kk`'s chain is one
/// that at least seven keys of `keys` other than `kk` may sit in: a bucket's worth of
/// competitors for every bucket of the chain.
pub open spec fn chain_crowded<K: ShardKey>(keys: Set<K>, seed: u64, kk: K, mask: usize) -> bool {
    forall|d: int| 0 <= d < 4 ==> #[trigger] bucket_crowded(keys, seed, kk, d, mask)
}

/// At least seven keys of `keys` other than `kk` may sit in the `d`-th bucket of `kk`'s
/// chain, in a table whose mask is `mask`.
pub open spec fn bucket_crowded<K: ShardKey>(keys: Set<K>, seed: u64, kk: K, d: int, mask: usize) -> bool {
    exists|s: Set<K>|
        #![trigger s.len()]
        s.subset_of(keys) && s.finite() && s.len() >= 7 && !s.contains(kk) && forall|k2: K|
            #![trigger s.contains(k2)]
            s.contains(k2) ==> shares_bucket(seed, k2, kk, d, mask)
}

/// Even some table of more than half of [`MAX_TABLE_LEN`] buckets has a crowded chain,
/// for `key` or for one of `keys`.
pub open spec fn saturated<K: ShardKey>(keys: Set<K>, seed: u64, key: K) -> bool {
    exists|len: int, kk: K|
        #![trigger chain_crowded(keys, seed, kk, (len - 1) as usize)]
        MAX_TABLE_LEN / 2 < len <= MAX_TABLE_LEN && (kk == key || keys.contains(kk)) && chain_crowded(
            keys,
            seed,
            kk,
            (len - 1) as usize,
        )
}

/// More keys only crowd a chain more.
pub proof fn lemma_crowded_superset<K: ShardKey>(keys: Set<K>, more: Set<K>, seed: u64, kk: K, mask: usize)
    requires
        keys.subset_of(more),
        chain_crowded(keys, seed, kk, mask),
    ensures
        chain_crowded(more, seed, kk, mask),
{
    assert forall|d: int| 0 <= d < 4 implies #[trigger] bucket_crowded(more, seed, kk, d, mask) by {
        assert(bucket_crowded(keys, seed, kk, d, mask));
        let st = choose|st: Set<K>|
            #![trigger st.len()]
            st.subset_of(keys) && st.finite() && st.len() >= 7 && !st.contains(kk) && forall|k2: K|
                #![trigger st.contains(k2)]
                st.contains(k2) ==> shares_bucket(seed, k2, kk, d, mask);
        assert(st.subset_of(more));
    }
}

/// The arena positions, among the first `i`, whose entry a rebuild of a fresh table of
/// `mask + 1` buckets places into bucket `b`.
spec fn placed_in<K: ShardKey, V>(entries: Seq<Option<(K, V)>>, seed: u64, mask: usize, i: int, b: int) -> Set<int>
    decreases i,
{
    if i <= 0 {
        Set::empty()
    } else {
        let prev = placed_in(entries, seed, mask, i - 1, b);
        match fill_upto(entries, seed, mask, i - 1) {
            None => prev,
            Some(f) => match entries[i - 1] {
                None => prev,
                Some(e) => match first_open(f, bin_spec(key_digest(seed, e.0), mask), mask) {
                    Some(b2) => if b2 == b {
                        prev.insert(i - 1)
                    } else {
                        prev
                    },
                    None => prev,
                },
            },
        }
    }
}

proof fn lemma_first_open(f: Seq<int>, bin: usize, mask: usize)
    ensures
        first_open(f, bin, mask) matches Some(b) ==> exists|d: int| 0 <= d < 4 && b == chain_spec(bin, d, mask) as int,
        first_open(f, bin, mask) is None ==> forall|d: int| 0 <= d < 4 ==> f[chain_spec(bin, d, mask) as int] >= 7,
{
    if first_open(f, bin, mask) is None {
        assert forall|d: int| 0 <= d < 4 implies f[chain_spec(bin, d, mask) as int] >= 7 by {
            if d == 0 {
            } else if d == 1 {
            } else if d == 2 {
            } else {
            }
        }
    } else {
        let b = first_open(f, bin, mask)->Some_0;
        if b == chain_spec(bin, 0, mask) as int {
            assert(0 <= 0int < 4 && b == chain_spec(bin, 0int, mask) as int);
        } else if b == chain_spec(bin, 1, mask) as int {
            assert(0 <= 1int < 4 && b == chain_spec(bin, 1int, mask) as int);
        } else if b == chain_spec(bin, 2, mask) as int {
            assert(0 <= 2int < 4 && b == chain_spec(bin, 2int, mask) as int);
        } else {
            assert(0 <= 3int < 4 && b == chain_spec(bin, 3int, mask) as int);
        }
    }
}

/// A successful rebuild of the first `i` arena positions fills each bucket with exactly
/// the live entries placed into it, each of which has that bucket in its chain.
proof fn lemma_fill_count<K: ShardKey, V>(entries: Seq<Option<(K, V)>>, seed: u64, mask: usize, i: int)
    requires
        0 <= i <= entries.len(),
        fill_upto(entries, seed, mask, i) is Some,
    ensures
        fill_upto(entries, seed, mask, i)->Some_0.len() == mask + 1,
        forall|b: int| #![trigger placed_in(entries, seed, mask, i, b)]
            0 <= b <= mask ==> placed_in(entries, seed, mask, i, b).finite() && placed_in(entries, seed, mask, i, b).len()
                == fill_upto(entries, seed, mask, i)->Some_0[b],
        forall|b: int, j: int| #[trigger] placed_in(entries, seed, mask, i, b).contains(j) ==> {
            &&& 0 <= j < i
            &&& entries[j] is Some
            &&& exists|d: int| 0 <= d < 4 && chain_spec(bin_spec(key_digest(seed, entries[j]->Some_0.0), mask), d, mask) == b
        },
    decreases i,
{
    if i > 0 {
        if fill_upto(entries, seed, mask, i - 1) is None {
            assert(fill_upto(entries, seed, mask, i) is None);
        }
        lemma_fill_count(entries, seed, mask, i - 1);
        let f = fill_upto(entries, seed, mask, i - 1)->Some_0;
        match entries[i - 1] {
            None => {
                assert forall|b: int| #![trigger placed_in(entries, seed, mask, i, b)]
                    0 <= b <= mask implies placed_in(entries, seed, mask, i, b).finite() && placed_in(entries, seed, mask, i, b).len()
                        == fill_upto(entries, seed, mask, i)->Some_0[b] by {
                    assert(placed_in(entries, seed, mask, i, b) == placed_in(entries, seed, mask, i - 1, b));
                }
                assert forall|b: int, j: int| #[trigger] placed_in(entries, seed, mask, i, b).contains(j) implies {
                    &&& 0 <= j < i
                    &&& entries[j] is Some
                    &&& exists|d: int| 0 <= d < 4 && chain_spec(bin_spec(key_digest(seed, entries[j]->Some_0.0), mask), d, mask) == b
                } by {
                    assert(placed_in(entries, seed, mask, i - 1, b).contains(j));
                }
            },
            Some(e) => {
                let bin = bin_spec(key_digest(seed, e.0), mask);
                lemma_first_open(f, bin, mask);
                let b2 = first_open(f, bin, mask)->Some_0;
                let d2 = choose|d: int| 0 <= d < 4 && b2 == chain_spec(bin, d, mask) as int;
                lemma_chain_le(bin, d2, mask);
                assert forall|b: int| #![trigger placed_in(entries, seed, mask, i, b)]
                    0 <= b <= mask implies placed_in(entries, seed, mask, i, b).finite() && placed_in(entries, seed, mask, i, b).len()
                        == fill_upto(entries, seed, mask, i)->Some_0[b] by {
                    let prev = placed_in(entries, seed, mask, i - 1, b);
                    if b == b2 {
                        assert(!prev.contains(i - 1));
                        assert(placed_in(entries, seed, mask, i, b) == prev.insert(i - 1));
                    } else {
                        assert(placed_in(entries, seed, mask, i, b) == prev);
                    }
                }
                assert forall|b: int, j: int| #[trigger] placed_in(entries, seed, mask, i, b).contains(j) implies {
                    &&& 0 <= j < i
                    &&& entries[j] is Some
                    &&& exists|d: int| 0 <= d < 4 && chain_spec(bin_spec(key_digest(seed, entries[j]->Some_0.0), mask), d, mask) == b
                } by {
                    if j != i - 1 || b != b2 {
                        assert(placed_in(entries, seed, mask, i - 1, b).contains(j));
                    } else {
                        assert(0 <= d2 < 4 && chain_spec(bin_spec(key_digest(seed, entries[j]->Some_0.0), mask), d2, mask) == b);
                    }
                }
            },
        }
    } else {
        assert forall|b: int| #![trigger placed_in(entries, seed, mask, i, b)]
            0 <= b <= mask implies placed_in(entries, seed, mask, i, b).finite() && placed_in(entries, seed, mask, i, b).len()
                == fill_upto(entries, seed, mask, i)->Some_0[b] by {
            assert(placed_in(entries, seed, mask, i, b) == Set::<int>::empty());
        }
    }
}

/// A rebuild that fails has a first live entry whose whole chain is already full.
proof fn lemma_fill_fail<K: ShardKey, V>(entries: Seq<Option<(K, V)>>, seed: u64, mask: usize, n: int)
    requires
        0 <= n <= entries.len(),
        fill_upto(entries, seed, mask, n) is None,
    ensures
        exists|i: int|
            #![trigger fill_upto(entries, seed, mask, i)]
            0 <= i < n && fill_upto(entries, seed, mask, i) is Some && entries[i] is Some && first_open(
                fill_upto(entries, seed, mask, i)->Some_0,
                bin_spec(key_digest(seed, entries[i]->Some_0.0), mask),
                mask,
            ) is None,
    decreases n,
{
    if n > 0 {
        if fill_upto(entries, seed, mask, n - 1) is None {
            lemma_fill_fail(entries, seed, mask, n - 1);
        } else {
            assert(fill_upto(entries, seed, mask, n - 1) is Some);
        }
    }
}

/// Doublings that all fail to fit end at a table of more than half of
/// [`MAX_TABLE_LEN`]: either the table already is one, or some such table's rebuild
/// fails.
proof fn lemma_grow_fails<K: ShardKey, V>(entries: Seq<Option<(K, V)>>, seed: u64, len: int)
    requires
        1 <= len,
        !grow_fits(entries, seed, len),
    ensures
        len > MAX_TABLE_LEN / 2 || exists|l: int|
            #![trigger rebuild_fits(entries, seed, l as usize)]
            MAX_TABLE_LEN / 2 < l <= MAX_TABLE_LEN && !rebuild_fits(entries, seed, l as usize),
    decreases MAX_TABLE_LEN - len,
{
    if len <= MAX_TABLE_LEN / 2 {
        assert(!rebuild_fits(entries, seed, (2 * len) as usize));
        if 2 * len <= MAX_TABLE_LEN / 2 {
            lemma_grow_fails(entries, seed, 2 * len);
        } else {
            assert(MAX_TABLE_LEN / 2 < 2 * len <= MAX_TABLE_LEN && !rebuild_fits(entries, seed, (2 * len) as usize));
        }
    }
}

proof fn lemma_fill_stuck<K: ShardKey, V>(entries: Seq<Option<(K, V)>>, seed: u64, mask: usize, i: int, j: int)
    requires
        0 <= i <= j,
        fill_upto(entries, seed, mask, i) is None,
    ensures
        fill_upto(entries, seed, mask, j) is None,
    decreases j - i,
{
    if i < j {
        lemma_fill_stuck(entries, seed, mask, i, j - 1);
    }
}

/// The largest bucket table a shard may hold: the byte size of a larger table would not
/// fit in the address space.
pub const MAX_TABLE_LEN: usize = usize::MAX / 128 + 1;

/// The digest of a key under `seed`.
pub open spec fn key_digest<K: ShardKey>(seed: u64, k: K) -> u64 {
    digest_spec(seed, k.key_word())
}

/// A free slot of a bucket: the lowest slot below the frontier that is not occupied,
/// else the frontier itself while it is below the bucket's size.
fn free_slot(meta: u64) -> (r: Option<usize>)
    requires
        hw_spec(meta) <= 7,
        forall|s: int| #[trigger] occupied_bit(meta, s) ==> s < hw_spec(meta),
    ensures
        match r {
            Some(t) => {
                &&& t < 7
                &&& !occupied_bit(meta, t as int)
                &&& t <= hw_spec(meta)
                &&& forall|u: int| 0 <= u < t ==> #[trigger] occupied_bit(meta, u)
            },
            None => hw_spec(meta) == 7 && forall|t: int| 0 <= t < 7 ==> #[trigger] occupied_bit(meta, t),
        },
{
    let hw = hw_of(meta);
    let mut s: usize = 0;
    while (s as u64) < hw
        invariant
            hw == hw_spec(meta),
            hw <= 7,
            s <= hw,
            forall|t: int| 0 <= t < s ==> #[trigger] occupied_bit(meta, t),
        decreases hw - s,
    {
        if !is_occupied(meta, s) {
            return Some(s);
        }
        s = s + 1;
    }
    if hw < 7 {
        Some(hw as usize)
    } else {
        None
    }
}

/// `n` is a power of two.
pub open spec fn power_of_two(n: int) -> bool
    decreases n,
{
    if n <= 1 {
        n == 1
    } else {
        n % 2 == 0 && power_of_two(n / 2)
    }
}

/// Sixteen is the only power of two from sixteen below thirty-two.
proof fn lemma_power_of_two_from_16(p: int)
    requires
        16 <= p < 32,
        power_of_two(p),
    ensures
        p == 16,
{
    reveal_with_fuel(power_of_two, 6);
}

/// The smallest power of two not below `x` (one for zero).
pub fn next_power_of_two(x: usize) -> (p: usize)
    requires
        x <= usize::MAX / 2 + 1,
    ensures
        power_of_two(p as int),
        p >= x,
        p >= 1,
        x >= 1 ==> p < 2 * x,
        x == 0 ==> p == 1,
{
    let mut p: usize = 1;
    while p < x
        invariant
            power_of_two(p as int),
            p >= 1,
            x <= usize::MAX / 2 + 1,
            p > 1 ==> p < 2 * x,
        decreases usize::MAX - p,
    {
        assert(power_of_two((2 * p) as int)) by {
            assert((2 * p) as int / 2 == p as int);
        }
        p = p * 2;
    }
    p
}

/// A table of `len` empty buckets.
fn empty_table(len: usize) -> (t: Vec<Bucket>)
    ensures
        t.len() == len,
        forall|b: int| 0 <= b < len ==> #[trigger] t@[b].wf(),
        forall|b: int, s: int| 0 <= b < len ==> !#[trigger] occupied_bit(t@[b].meta, s),
        forall|b: int| 0 <= b < len ==> #[trigger] hw_spec(t@[b].meta) == 0,
{
    let mut t: Vec<Bucket> = Vec::with_capacity(len);
    let mut i: usize = 0;
    while i < len
        invariant
            i <= len,
            t.len() == i,
            forall|b: int| 0 <= b < i ==> #[trigger] t@[b].wf(),
            forall|b: int, s: int| 0 <= b < i ==> !#[trigger] occupied_bit(t@[b].meta, s),
            forall|b: int| 0 <= b < i ==> #[trigger] hw_spec(t@[b].meta) == 0,
        decreases len - i,
    {
        t.push(Bucket::new());
        i = i + 1;
    }
    t
}

/// Slot coordinates plus arena index of a located key.
type Hit = (usize, usize, u32);

/// The entries of one shard: a table of bucket chains indexing a side arena.
#[verifier::reject_recursive_types(K)]
struct Inner<K, V> {
    buckets: Vec<Bucket>,
    mask: usize,
    entries: Vec<Option<(K, V)>>,
    free: Vec<u32>,
    count: usize,
    /// The key-value pairs held.
    kv: Ghost<Map<K, V>>,
    /// The arena index of each held key.
    at: Ghost<Map<K, int>>,
    /// For each held key, its chain position and slot: `(d, s)`.
    loc: Ghost<Map<K, (int, int)>>,
}

impl<K: ShardKey, V> Inner<K, V> {
    spec fn key_at(&self, i: int) -> K {
        self.entries@[i].unwrap().0
    }

    spec fn home_of(&self, seed: u64, k: K) -> usize {
        bin_spec(key_digest(seed, k), self.mask)
    }

    /// The bucket and slot recorded for `k`.
    spec fn slot_of(&self, seed: u64, k: K) -> (int, int) {
        (chain_spec(self.home_of(seed, k), self.loc@[k].0, self.mask) as int, self.loc@[k].1)
    }

    spec fn shape(&self) -> bool {
        &&& 1 <= self.buckets.len() <= MAX_TABLE_LEN
        &&& self.mask == self.buckets.len() - 1
        &&& forall|b: int| 0 <= b < self.buckets.len() ==> #[trigger] self.buckets@[b].wf()
    }

    #[verifier::opaque]
    spec fn arena_inv(&self) -> bool {
        &&& self.entries.len() <= 0x1_0000_0000
        &&& self.kv@.dom().finite()
        &&& self.count == self.kv@.len()
        &&& self.count + self.free.len() <= self.entries.len()
        &&& forall|k: K| #[trigger]
            self.kv@.contains_key(k) ==> {
                &&& self.at@.contains_key(k)
                &&& 0 <= self.at@[k] < self.entries.len()
                &&& self.entries@[self.at@[k]] == Some((k, self.kv@[k]))
            }
        &&& forall|i: int|
            0 <= i < self.entries.len() && (#[trigger] self.entries@[i]).is_some() ==> {
                &&& self.kv@.contains_key(self.key_at(i))
                &&& self.at@[self.key_at(i)] == i
            }
        &&& forall|j: int|
            0 <= j < self.free.len() ==> {
                &&& (#[trigger] self.free@[j]) < self.entries.len()
                &&& self.entries@[self.free@[j] as int].is_none()
            }
        &&& forall|j1: int, j2: int|
            0 <= j1 < self.free.len() && 0 <= j2 < self.free.len() && j1 != j2 ==> #[trigger] self.free@[j1]
                != #[trigger] self.free@[j2]
    }

    /// The table indexes every key whose arena index is below `p`, and nothing else.
    #[verifier::opaque]
    spec fn table_inv(&self, seed: u64, p: int) -> bool {
        &&& forall|b: int, s: int|
            0 <= b < self.buckets.len() && #[trigger] occupied_bit(self.buckets@[b].meta, s) ==> {
                let i = self.buckets@[b].slots@[s].idx_spec() as int;
                &&& 0 <= i < p
                &&& i < self.entries.len()
                &&& self.entries@[i].is_some()
                &&& self.slot_of(seed, self.key_at(i)) == (b, s)
            }
        &&& forall|k: K| #[trigger]
            self.kv@.contains_key(k) && self.at@[k] < p ==> {
                let (b, s) = self.slot_of(seed, k);
                &&& self.loc@.contains_key(k)
                &&& 0 <= self.loc@[k].0 < 4
                &&& 0 <= s < 7
                &&& occupied_bit(self.buckets@[b].meta, s)
                &&& self.buckets@[b].slots@[s].idx_spec() == self.at@[k]
                &&& self.buckets@[b].slots@[s].fp_spec() == fp_spec(key_digest(seed, k))
            }
    }

    /// Every arena position is either live or on the free list.
    spec fn tight(&self) -> bool {
        self.count + self.free.len() == self.entries.len()
    }

    /// Every bucket of the chain rooted at `bin` is full.
    spec fn chain_full(&self, bin: usize) -> bool {
        forall|d: int| 0 <= d < 4 ==> #[trigger] bucket_full(self.buckets@[chain_spec(bin, d, self.mask) as int].meta)
    }

    spec fn wf(&self, seed: u64) -> bool {
        &&& self.shape()
        &&& self.arena_inv()
        &&& self.table_inv(seed, self.entries.len() as int)
    }

    /// What a scan of `key`'s chain relies on: each occupied slot names a live entry
    /// recorded at that slot, and `key`, when held, sits in an occupied slot of its chain
    /// carrying its fingerprint and arena index.
    spec fn lookup_facts(&self, seed: u64, key: K) -> bool {
        &&& forall|b: int, s: int|
            0 <= b < self.buckets.len() && #[trigger] occupied_bit(self.buckets@[b].meta, s) ==> {
                let i = self.buckets@[b].slots@[s].idx_spec() as int;
                &&& 0 <= i < self.entries.len()
                &&& self.entries@[i].is_some()
                &&& (self.key_at(i) == key ==> {
                    &&& self.kv@.contains_key(key)
                    &&& self.slot_of(seed, key) == (b, s)
                    &&& self.at@[key] == i
                })
            }
        &&& self.kv@.contains_key(key) ==> {
            let (b, s) = self.slot_of(seed, key);
            &&& 0 <= self.loc@[key].0 < 4
            &&& 0 <= s < 7
            &&& occupied_bit(self.buckets@[b].meta, s)
            &&& self.buckets@[b].slots@[s].idx_spec() == self.at@[key]
            &&& self.buckets@[b].slots@[s].fp_spec() == fp_spec(key_digest(seed, key))
            &&& 0 <= self.at@[key] < self.entries.len()
            &&& self.key_at(self.at@[key]) == key
        }
    }

    proof fn lemma_lookup_facts(&self, seed: u64, key: K)
        requires
            self.wf(seed),
        ensures
            self.lookup_facts(seed, key),
    {
        reveal(Inner::arena_inv);
        reveal(Inner::table_inv);
        assert forall|b: int, s: int|
            0 <= b < self.buckets.len() && #[trigger] occupied_bit(self.buckets@[b].meta, s) implies {
                let i = self.buckets@[b].slots@[s].idx_spec() as int;
                &&& 0 <= i < self.entries.len()
                &&& self.entries@[i].is_some()
                &&& (self.key_at(i) == key ==> {
                    &&& self.kv@.contains_key(key)
                    &&& self.slot_of(seed, key) == (b, s)
                    &&& self.at@[key] == i
                })
            } by {
            let i = self.buckets@[b].slots@[s].idx_spec() as int;
            assert(self.entries@[i].is_some());
        }
        if self.kv@.contains_key(key) {
            assert(self.at@[key] < self.entries.len() as int);
        }
    }

    proof fn lemma_finite(&self, seed: u64)
        requires
            self.wf(seed),
        ensures
            self.kv@.dom().finite(),
    {
        reveal(Inner::arena_inv);
    }

    /// Locates `key` inside the chain rooted at `bin`, returning its slot coordinates
    /// and arena index.
    fn locate(&self, bin: usize, fp: u32, key: &K, Ghost(seed): Ghost<u64>) -> (r: Option<Hit>)
        requires
            self.wf(seed),
            bin == self.home_of(seed, *key),
            fp == fp_spec(key_digest(seed, *key)),
        ensures
            match r {
                Some((b, s, i)) => {
                    &&& self.kv@.contains_key(*key)
                    &&& self.slot_of(seed, *key) == (b as int, s as int)
                    &&& i == self.at@[*key]
                    &&& b < self.buckets.len()
                    &&& s < 7
                },
                None => !self.kv@.contains_key(*key),
            },
    {
        proof {
            self.lemma_lookup_facts(seed, *key);
            lemma_bin_le(key_digest(seed, *key), self.mask);
        }
        let mut d: usize = 0;
        while d < CHAIN_DEPTH
            invariant
                self.shape(),
                self.lookup_facts(seed, *key),
                bin == self.home_of(seed, *key),
                bin <= self.mask,
                fp == fp_spec(key_digest(seed, *key)),
                d <= CHAIN_DEPTH,
                self.kv@.contains_key(*key) ==> self.loc@[*key].0 >= d,
            decreases CHAIN_DEPTH - d,
        {
            let bidx = (bin + d) & self.mask;
            proof {
                let x = (bin + d) as usize;
                let m = self.mask;
                assert(x & m <= m) by (bit_vector);
            }
            let bucket = &self.buckets[bidx];
            let meta = bucket.meta;
            let hw = hw_of(meta);
            assert(self.buckets@[bidx as int].wf());
            let mut s: usize = 0;
            while (s as u64) < hw
                invariant
                    self.shape(),
                    self.lookup_facts(seed, *key),
                    bin == self.home_of(seed, *key),
                    fp == fp_spec(key_digest(seed, *key)),
                    d < CHAIN_DEPTH,
                    bidx == chain_spec(bin, d as int, self.mask),
                    bidx < self.buckets.len(),
                    *bucket == self.buckets@[bidx as int],
                    meta == bucket.meta,
                    hw == hw_spec(meta),
                    hw <= 7,
                    s <= hw,
                    self.kv@.contains_key(*key) ==> self.loc@[*key].0 >= d,
                    self.kv@.contains_key(*key) && self.loc@[*key].0 == d ==> self.loc@[*key].1
                        >= s,
                decreases hw - s,
            {
                if is_occupied(meta, s) {
                    let slot = bucket.slots[s];
                    assert(occupied_bit(self.buckets@[bidx as int].meta, s as int));
                    if slot.fp() == fp {
                        let i = slot.idx() as usize;
                        match &self.entries[i] {
                            Some((k, _)) => {
                                if k.same_key(key) {
                                    return Some((bidx, s, slot.idx()));
                                }
                            },
                            None => {},
                        }
                    }
                }
                s = s + 1;
            }
            proof {
                if self.kv@.contains_key(*key) && self.loc@[*key].0 == d {
                    let (b, t) = self.slot_of(seed, *key);
                    assert(occupied_bit(self.buckets@[b].meta, t));
                }
            }
            d = d + 1;
        }
        None
    }

    /// Single pass over the chain that both locates `key` and records the first free
    /// slot, so inserts walk each bucket at most once.
    fn scan(&self, bin: usize, fp: u32, key: &K, Ghost(seed): Ghost<u64>) -> (r: (
        Option<Hit>,
        Option<(usize, usize)>,
    ))
        requires
            self.wf(seed),
            bin == self.home_of(seed, *key),
            fp == fp_spec(key_digest(seed, *key)),
        ensures
            match r.0 {
                Some((b, s, i)) => {
                    &&& self.kv@.contains_key(*key)
                    &&& self.slot_of(seed, *key) == (b as int, s as int)
                    &&& i == self.at@[*key]
                    &&& b < self.buckets.len()
                    &&& s < 7
                },
                None => !self.kv@.contains_key(*key),
            },
            r.0 is None ==> match r.1 {
                Some((b, t)) => {
                    &&& in_chain(bin, b, self.mask)
                    &&& b < self.buckets.len()
                    &&& t < 7
                    &&& !occupied_bit(self.buckets@[b as int].meta, t as int)
                    &&& t <= hw_spec(self.buckets@[b as int].meta)
                    &&& first_room(self.buckets@, bin, self.mask, b, t as int)
                },
                None => self.chain_full(bin),
            },
    {
        proof {
            self.lemma_lookup_facts(seed, *key);
            lemma_bin_le(key_digest(seed, *key), self.mask);
        }
        let mut first_free: Option<(usize, usize)> = None;
        let mut d: usize = 0;
        while d < CHAIN_DEPTH
            invariant
                self.shape(),
                self.lookup_facts(seed, *key),
                bin == self.home_of(seed, *key),
                bin <= self.mask,
                fp == fp_spec(key_digest(seed, *key)),
                d <= CHAIN_DEPTH,
                self.kv@.contains_key(*key) ==> self.loc@[*key].0 >= d,
                match first_free {
                    Some((b, t)) => {
                        &&& in_chain(bin, b, self.mask)
                        &&& b < self.buckets.len()
                        &&& t < 7
                        &&& !occupied_bit(self.buckets@[b as int].meta, t as int)
                        &&& t <= hw_spec(self.buckets@[b as int].meta)
                        &&& first_room(self.buckets@, bin, self.mask, b, t as int)
                    },
                    None => forall|d2: int| 0 <= d2 < d ==> #[trigger] bucket_full(self.buckets@[chain_spec(bin, d2, self.mask) as int].meta),
                },
            decreases CHAIN_DEPTH - d,
        {
            let bidx = (bin + d) & self.mask;
            proof {
                let x = (bin + d) as usize;
                let m = self.mask;
                assert(x & m <= m) by (bit_vector);
            }
            let bucket = &self.buckets[bidx];
            let meta = bucket.meta;
            let hw = hw_of(meta);
            assert(self.buckets@[bidx as int].wf());
            let mut s: usize = 0;
            while (s as u64) < hw
                invariant
                    self.shape(),
                    self.lookup_facts(seed, *key),
                    bin == self.home_of(seed, *key),
                    fp == fp_spec(key_digest(seed, *key)),
                    d < CHAIN_DEPTH,
                    bidx == chain_spec(bin, d as int, self.mask),
                    bidx < self.buckets.len(),
                    *bucket == self.buckets@[bidx as int],
                    meta == bucket.meta,
                    hw == hw_spec(meta),
                    hw <= 7,
                    s <= hw,
                    self.kv@.contains_key(*key) ==> self.loc@[*key].0 >= d,
                    self.kv@.contains_key(*key) && self.loc@[*key].0 == d ==> self.loc@[*key].1
                        >= s,
                decreases hw - s,
            {
                if is_occupied(meta, s) {
                    let slot = bucket.slots[s];
                    assert(occupied_bit(self.buckets@[bidx as int].meta, s as int));
                    if slot.fp() == fp {
                        let i = slot.idx() as usize;
                        match &self.entries[i] {
                            Some((k, _)) => {
                                if k.same_key(key) {
                                    return (Some((bidx, s, slot.idx())), first_free);
                                }
                            },
                            None => {},
                        }
                    }
                }
                s = s + 1;
            }
            proof {
                if self.kv@.contains_key(*key) && self.loc@[*key].0 == d {
                    let (b, t) = self.slot_of(seed, *key);
                    assert(occupied_bit(self.buckets@[b].meta, t));
                }
            }
            if first_free.is_none() {
                match free_slot(meta) {
                    Some(t) => {
                        assert(chain_spec(bin, d as int, self.mask) == bidx);
                        first_free = Some((bidx, t));
                    },
                    None => {},
                }
            }
            d = d + 1;
        }
        (None, first_free)
    }

    /// Marks slot `s` of bucket `bidx` occupied, advancing the bucket's frontier when
    /// the frontier slot itself was claimed.
    fn claim(&mut self, bidx: usize, s: usize)
        requires
            old(self).shape(),
            bidx < old(self).buckets.len(),
            s < 7,
            !occupied_bit(old(self).buckets@[bidx as int].meta, s as int),
            s <= hw_spec(old(self).buckets@[bidx as int].meta),
        ensures
            final(self).shape(),
            final(self).mask == old(self).mask,
            final(self).entries == old(self).entries,
            final(self).free == old(self).free,
            final(self).count == old(self).count,
            final(self).kv == old(self).kv,
            final(self).at == old(self).at,
            final(self).loc == old(self).loc,
            final(self).buckets.len() == old(self).buckets.len(),
            forall|b: int| 0 <= b < old(self).buckets.len() && b != bidx ==> #[trigger] final(self).buckets@[b] == old(self).buckets@[b],
            final(self).buckets@[bidx as int].slots == old(self).buckets@[bidx as int].slots,
            forall|t: int| #[trigger] occupied_bit(final(self).buckets@[bidx as int].meta, t)
                == (occupied_bit(old(self).buckets@[bidx as int].meta, t) || t == s),
            hw_spec(final(self).buckets@[bidx as int].meta) as int == if s as int == hw_spec(
                old(self).buckets@[bidx as int].meta,
            ) as int {
                hw_spec(old(self).buckets@[bidx as int].meta) + 1
            } else {
                hw_spec(old(self).buckets@[bidx as int].meta) as int
            },
    {
        let mut bucket = self.buckets[bidx];
        let meta = bucket.meta;
        let hw = hw_of(meta);
        assert(old(self).buckets@[bidx as int].wf());
        let sh = s as u64;
        let set = meta | (1u64 << sh);
        let new_meta = if sh == hw {
            (set & !0x7f00u64) | ((hw + 1) << HW_SHIFT)
        } else {
            set
        };
        proof {
            assert forall|t: int| #[trigger] occupied_bit(new_meta, t) == (occupied_bit(meta, t) || t == s) by {
                if 0 <= t < 7 {
                    lemma_set_bit(meta, sh, t as u64);
                    if sh == hw {
                        lemma_set_frontier(set, (hw + 1) as u64, t as u64);
                    }
                }
            }
            lemma_set_bit(meta, sh, 0);
            if sh == hw {
                lemma_set_frontier(set, (hw + 1) as u64, 0);
            }
            assert(hw_spec(new_meta) == if sh == hw { hw + 1 } else { hw as int });
        }
        bucket.meta = new_meta;
        self.buckets.set(bidx, bucket);
        assert(self.buckets@[bidx as int].wf());
        assert forall|b: int| 0 <= b < self.buckets.len() implies #[trigger] self.buckets@[b].wf() by {
            if b != bidx {
                assert(old(self).buckets@[b].wf());
            }
        }
    }

    /// Packs `(fp, idx)` into the chain rooted at `bin`, reusing a tombstoned gap or
    /// appending at the frontier of the earliest bucket with room.
    fn place(&mut self, bin: usize, fp: u32, idx: u32) -> (r: bool)
        requires
            old(self).shape(),
            bin <= old(self).mask,
        ensures
            final(self).shape(),
            final(self).mask == old(self).mask,
            final(self).entries == old(self).entries,
            final(self).free == old(self).free,
            final(self).count == old(self).count,
            final(self).kv == old(self).kv,
            final(self).at == old(self).at,
            final(self).loc == old(self).loc,
            r == !old(self).chain_full(bin),
            r ==> exists|d: int, t: int|
                #[trigger] placed_first(old(self).buckets@, final(self).buckets@, bin, old(self).mask, d, t, fp, idx),
            !r ==> final(self).buckets == old(self).buckets,
    {
        let mut d: usize = 0;
        while d < CHAIN_DEPTH
            invariant
                self == old(self),
                self.shape(),
                bin <= self.mask,
                d <= CHAIN_DEPTH,
                forall|d2: int| 0 <= d2 < d ==> #[trigger] bucket_full(self.buckets@[chain_spec(bin, d2, self.mask) as int].meta),
            decreases CHAIN_DEPTH - d,
        {
            let bidx = (bin + d) & self.mask;
            proof {
                let x = (bin + d) as usize;
                let m = self.mask;
                assert(x & m <= m) by (bit_vector);
            }
            let meta = self.buckets[bidx].meta;
            assert(self.buckets@[bidx as int].wf());
            match free_slot(meta) {
                Some(target) => {
                    self.claim(bidx, target);
                    let mut bucket = self.buckets[bidx];
                    assert(bucket.wf() && occupied_bit(bucket.meta, target as int));
                    bucket.slots[target] = Slot::pack(fp, idx);
                    self.buckets.set(bidx, bucket);
                    assert forall|b: int| 0 <= b < self.buckets.len() implies #[trigger] self.buckets@[b].wf() by {
                        if b != bidx {
                            assert(old(self).buckets@[b].wf());
                        }
                    }
                    assert(placed_at(
                        old(self).buckets@,
                        self.buckets@,
                        chain_spec(bin, d as int, old(self).mask),
                        target as int,
                        fp,
                        idx,
                    ));
                    assert(placed_first(old(self).buckets@, self.buckets@, bin, old(self).mask, d as int, target as int, fp, idx));
                    assert(!bucket_full(old(self).buckets@[chain_spec(bin, d as int, old(self).mask) as int].meta));
                    return true;
                },
                None => {
                    assert(chain_spec(bin, d as int, self.mask) == bidx);
                },
            }
            d = d + 1;
        }
        false
    }

    /// An empty shard whose table holds at least `buckets_len` (and at least sixteen)
    /// buckets, a power of two, with room reserved for `entry_capacity` entries.
    fn new(buckets_len: usize, entry_capacity: usize) -> (r: Self)
        requires
            buckets_len <= MAX_TABLE_LEN / 2,
        ensures
            forall|seed: u64| #[trigger] r.wf(seed),
            forall|seed: u64, k: K| #[trigger] r.has_room_for(seed, k),
            r.kv@ == Map::<K, V>::empty(),
            r.buckets.len() >= 16,
            r.buckets.len() >= buckets_len,
            buckets_len > 16 ==> r.buckets.len() < 2 * buckets_len,
            buckets_len <= 16 ==> r.buckets.len() == 16,
            power_of_two(r.buckets.len() as int),
            r.mask == r.buckets.len() - 1,
            r.entries@.len() == 0,
            r.free@.len() == 0,
            r.count == 0,
            forall|b: int| 0 <= b < r.buckets.len() ==> #[trigger] hw_spec(r.buckets@[b].meta) == 0,
            forall|b: int, s: int| 0 <= b < r.buckets.len() ==> !#[trigger] occupied_bit(r.buckets@[b].meta, s),
    {
        let wanted = if buckets_len < 16 {
            16
        } else {
            buckets_len
        };
        let buckets_len = next_power_of_two(wanted);
        proof {
            if wanted == 16 {
                lemma_power_of_two_from_16(buckets_len as int);
            }
        }
        let r = Inner {
            buckets: empty_table(buckets_len),
            mask: buckets_len - 1,
            entries: Vec::with_capacity(entry_capacity),
            free: Vec::new(),
            count: 0,
            kv: Ghost(Map::empty()),
            at: Ghost(Map::empty()),
            loc: Ghost(Map::empty()),
        };
        assert forall|seed: u64| #[trigger] r.wf(seed) by {
            reveal(Inner::arena_inv);
            reveal(Inner::table_inv);
        }
        assert(buckets_len * SLOTS_PER_BUCKET * GROW_THRESHOLD_NUM >= GROW_THRESHOLD_DEN) by (nonlinear_arith)
            requires
                buckets_len >= 16;
        assert forall|seed: u64, k: K| #[trigger] r.has_room_for(seed, k) by {
            let b = chain_spec(r.home_of(seed, k), 0, r.mask);
            lemma_chain_le(r.home_of(seed, k), 0, r.mask);
            assert(!occupied_bit(r.buckets@[b as int].meta, 0));
            assert(!bucket_full(r.buckets@[b as int].meta));
        }
        r
    }

    /// Placing one more key keeps the table consistent: `post` is `pre` with the key
    /// `k` (arena index `i`) written into slot `t` of the `d`-th bucket of its chain.
    proof fn lemma_table_step(pre: Self, post: Self, seed: u64, p: int, k: K, i: int, d: int, t: int)
        requires
            pre.shape(),
            post.shape(),
            post.mask == pre.mask,
            pre.table_inv(seed, p),
            0 <= i <= p,
            p <= pre.entries.len(),
            i < pre.entries.len(),
            i < 0x1_0000_0000,
            post.entries.len() == pre.entries.len(),
            0 <= d < 4,
            placed_at(
                pre.buckets@,
                post.buckets@,
                chain_spec(pre.home_of(seed, k), d, pre.mask),
                t,
                fp_spec(key_digest(seed, k)),
                i as u32,
            ),
            post.entries@[i].is_some(),
            post.key_at(i) == k,
            forall|j: int| 0 <= j < post.entries.len() && j != i ==> #[trigger] post.entries@[j] == pre.entries@[j],
            pre.entries@[i].is_none() || i == p,
            forall|j: int|
                0 <= j < post.entries.len() && j != i && (#[trigger] post.entries@[j]).is_some()
                    ==> post.key_at(j) != k,
            post.kv@.contains_key(k),
            post.at@[k] == i,
            post.loc@ == pre.loc@.insert(k, (d, t)),
            forall|k2: K| k2 != k ==> (#[trigger] post.kv@.contains_key(k2) == pre.kv@.contains_key(k2)),
            forall|k2: K| k2 != k && #[trigger] pre.kv@.contains_key(k2) ==> post.at@[k2] == pre.at@[k2] && post.at@[k2] != i,
            pre.kv@.contains_key(k) ==> pre.at@[k] >= p,
        ensures
            post.table_inv(seed, if i == p { p + 1 } else { p }),
    {
        reveal(Inner::table_inv);
        let p2 = if i == p { p + 1 } else { p };
        let bb = chain_spec(pre.home_of(seed, k), d, pre.mask);
        assert(post.home_of(seed, k) == pre.home_of(seed, k));
        assert(post.slot_of(seed, k) == (bb as int, t));
        assert((i as u32) as int == i);
        assert forall|b: int, s: int|
            0 <= b < post.buckets.len() && #[trigger] occupied_bit(post.buckets@[b].meta, s) implies {
                let j = post.buckets@[b].slots@[s].idx_spec() as int;
                &&& 0 <= j < p2
                &&& j < post.entries.len()
                &&& post.entries@[j].is_some()
                &&& post.slot_of(seed, post.key_at(j)) == (b, s)
            } by {
            if b == bb as int && s == t {
                assert(post.buckets@[b].slots@[s].idx_spec() as int == i);
            } else {
                if b != bb as int {
                    assert(post.buckets@[b] == pre.buckets@[b]);
                } else {
                    assert(occupied_bit(post.buckets@[bb as int].meta, s) == (occupied_bit(pre.buckets@[bb as int].meta, s) || s == t));
                    assert(0 <= s < 7);
                    assert(post.buckets@[bb as int].slots@[s] == pre.buckets@[bb as int].slots@[s]);
                }
                assert(occupied_bit(pre.buckets@[b].meta, s));
                assert(post.buckets@[b].slots@[s] == pre.buckets@[b].slots@[s]);
                let j = pre.buckets@[b].slots@[s].idx_spec() as int;
                assert(pre.entries@[j].is_some());
                assert(j != i);
                assert(post.entries@[j] == pre.entries@[j]);
                let k2 = post.key_at(j);
                assert(k2 == pre.key_at(j));
                assert(k2 != k);
                assert(post.loc@[k2] == pre.loc@[k2]);
                assert(post.home_of(seed, k2) == pre.home_of(seed, k2));
                assert(post.slot_of(seed, k2) == pre.slot_of(seed, k2));
            }
        }
        assert forall|k2: K| #[trigger]
            post.kv@.contains_key(k2) && post.at@[k2] < p2 implies {
                let (b, s) = post.slot_of(seed, k2);
                &&& post.loc@.contains_key(k2)
                &&& 0 <= post.loc@[k2].0 < 4
                &&& 0 <= s < 7
                &&& occupied_bit(post.buckets@[b].meta, s)
                &&& post.buckets@[b].slots@[s].idx_spec() == post.at@[k2]
                &&& post.buckets@[b].slots@[s].fp_spec() == fp_spec(key_digest(seed, k2))
            } by {
            if k2 == k {
                assert(post.buckets@[bb as int].slots@[t].idx_spec() == i as u32);
            } else {
                assert(pre.kv@.contains_key(k2));
                assert(post.at@[k2] == pre.at@[k2]);
                assert(post.at@[k2] != i);
                assert(pre.at@[k2] < p);
                assert(post.loc@[k2] == pre.loc@[k2]);
                assert(post.home_of(seed, k2) == pre.home_of(seed, k2));
                let (b, s) = pre.slot_of(seed, k2);
                assert(post.slot_of(seed, k2) == (b, s));
                assert(occupied_bit(pre.buckets@[b].meta, s));
                if b == bb as int {
                    assert(s != t);
                    assert(post.buckets@[b].slots@[s] == pre.buckets@[b].slots@[s]);
                    assert(occupied_bit(post.buckets@[bb as int].meta, s) == (occupied_bit(pre.buckets@[bb as int].meta, s) || s == t));
                } else {
                    lemma_chain_le(pre.home_of(seed, k2), pre.loc@[k2].0, pre.mask);
                    assert(0 <= b < pre.buckets.len());
                    assert(post.buckets@[b] == pre.buckets@[b]);
                }
            }
        }
    }

    /// Rebuilds the table at `new_len` buckets, placing every live entry in arena
    /// order; on a chain overflow the table is left exactly as it was.
    fn rebuild(&mut self, new_len: usize, build_hasher: &ShardBuildHasher, Ghost(seed): Ghost<u64>) -> (ok: bool)
        requires
            old(self).wf(seed),
            build_hasher.seed == seed,
            1 <= new_len <= MAX_TABLE_LEN,
        ensures
            final(self).entries == old(self).entries,
            final(self).free == old(self).free,
            final(self).count == old(self).count,
            final(self).kv == old(self).kv,
            final(self).at == old(self).at,
            ok == rebuild_fits(old(self).entries@, seed, new_len),
            ok ==> final(self).wf(seed) && final(self).buckets.len() == new_len,
            !ok ==> *final(self) == *old(self),
    {
        let mut fresh = empty_table(new_len);
        std::mem::swap(&mut self.buckets, &mut fresh);
        let old_buckets = fresh;
        let old_mask = self.mask;
        self.mask = new_len - 1;
        let ghost old_loc = self.loc@;
        proof {
            reveal(Inner::table_inv);
            reveal(Inner::arena_inv);
            assert forall|b: int| 0 <= b < self.buckets.len() implies #[trigger] self.buckets@[b].wf() by {}
        }
        assert(self.table_inv(seed, 0));
        let ghost mut fill: Seq<int> = Seq::new(new_len as nat, |b: int| 0int);
        assert(fill_upto(self.entries@, seed, self.mask, 0) == Some(fill));
        let mut idx: usize = 0;
        while idx < self.entries.len()
            invariant
                fill_upto(self.entries@, seed, self.mask, idx as int) == Some(fill),
                fill.len() == new_len,
                self.mask == new_len - 1,
                forall|b: int| 0 <= b < new_len ==> #[trigger] hw_spec(self.buckets@[b].meta) == fill[b],
                forall|b: int, u: int| 0 <= b < new_len ==> (#[trigger] occupied_bit(self.buckets@[b].meta, u)
                    <==> 0 <= u < hw_spec(self.buckets@[b].meta)),
                self.shape(),
                self.arena_inv(),
                self.table_inv(seed, idx as int),
                idx <= self.entries.len(),
                self.buckets.len() == new_len,
                build_hasher.seed == seed,
                self.entries == old(self).entries,
                self.free == old(self).free,
                self.count == old(self).count,
                self.kv == old(self).kv,
                self.at == old(self).at,
                old_buckets == old(self).buckets,
                old_mask == old(self).mask,
                old_loc == old(self).loc@,
            decreases self.entries.len() - idx,
        {
            let digest = match &self.entries[idx] {
                Some((k, _)) => Some(build_hasher.hash_word(k.word())),
                None => None,
            };
            match digest {
                Some(digest) => {
                    let ghost k = self.key_at(idx as int);
                    let ghost pre = *self;
                    proof {
                        reveal(Inner::arena_inv);
                        assert(self.entries@[idx as int].is_some());
                        lemma_bin_le(digest, self.mask);
                    }
                    let fp = fp_of(digest);
                    let bin = bin_of(digest, self.mask);
                    let ghost mask = self.mask;
                    proof {
                        assert(bin == bin_spec(key_digest(seed, k), mask));
                        assert forall|d: int| 0 <= d < 4 implies (#[trigger] bucket_full(
                            pre.buckets@[chain_spec(bin, d, mask) as int].meta,
                        ) <==> fill[chain_spec(bin, d, mask) as int] == 7) by {
                            let b = chain_spec(bin, d, mask) as int;
                            lemma_chain_le(bin, d, mask);
                            assert(pre.buckets@[b].wf());
                            if fill[b] == 7 {
                                assert forall|u: int| 0 <= u < 7 implies #[trigger] occupied_bit(pre.buckets@[b].meta, u) by {}
                            } else {
                                assert(!occupied_bit(pre.buckets@[b].meta, 6));
                            }
                        }
                    }
                    if !self.place(bin, fp, idx as u32) {
                        self.buckets = old_buckets;
                        self.mask = old_mask;
                        self.loc = Ghost(old_loc);
                        proof {
                            assert(bucket_full(pre.buckets@[chain_spec(bin, 0, mask) as int].meta));
                            assert(bucket_full(pre.buckets@[chain_spec(bin, 1, mask) as int].meta));
                            assert(bucket_full(pre.buckets@[chain_spec(bin, 2, mask) as int].meta));
                            assert(bucket_full(pre.buckets@[chain_spec(bin, 3, mask) as int].meta));
                            assert(first_open(fill, bin, mask) is None);
                            assert(fill_upto(self.entries@, seed, mask, idx + 1) is None);
                            lemma_fill_stuck(self.entries@, seed, mask, idx + 1, self.entries.len() as int);
                        }
                        return false;
                    }
                    let ghost (d, t) = choose|d: int, t: int|
                        #[trigger] placed_first(pre.buckets@, self.buckets@, bin, mask, d, t, fp, idx as u32);
                    proof {
                        let b = chain_spec(bin, d, mask) as int;
                        lemma_chain_le(bin, d, mask);
                        assert(pre.buckets@[b].wf());
                        assert(t == hw_spec(pre.buckets@[b].meta)) by {
                            if t < hw_spec(pre.buckets@[b].meta) {
                                assert(occupied_bit(pre.buckets@[b].meta, t));
                            }
                        }
                        assert(!bucket_full(pre.buckets@[b].meta)) by {
                            assert(!occupied_bit(pre.buckets@[b].meta, t));
                        }
                        if d >= 1 {
                            assert(bucket_full(pre.buckets@[chain_spec(bin, 0, mask) as int].meta));
                        }
                        if d >= 2 {
                            assert(bucket_full(pre.buckets@[chain_spec(bin, 1, mask) as int].meta));
                        }
                        if d >= 3 {
                            assert(bucket_full(pre.buckets@[chain_spec(bin, 2, mask) as int].meta));
                        }
                        assert(first_open(fill, bin, mask) == Some(b));
                        let nf = fill.update(b, fill[b] + 1);
                        assert(fill_upto(self.entries@, seed, mask, idx + 1) == Some(nf));
                        assert forall|c: int| 0 <= c < new_len implies #[trigger] hw_spec(self.buckets@[c].meta) == nf[c] by {
                            if c != b {
                                assert(self.buckets@[c] == pre.buckets@[c]);
                            }
                        }
                        assert forall|c: int, u: int| 0 <= c < new_len implies (#[trigger] occupied_bit(self.buckets@[c].meta, u)
                            <==> 0 <= u < hw_spec(self.buckets@[c].meta)) by {
                            if c != b {
                                assert(self.buckets@[c] == pre.buckets@[c]);
                            }
                        }
                        fill = nf;
                    }
                    self.loc = Ghost(self.loc@.insert(k, (d, t)));
                    proof {
                        reveal(Inner::arena_inv);
                        assert forall|j: int|
                            0 <= j < self.entries.len() && j != idx && (#[trigger] self.entries@[j]).is_some()
                                implies self.key_at(j) != k by {
                            assert(self.at@[self.key_at(j)] == j);
                        }
                        assert forall|k2: K| k2 != k && #[trigger] pre.kv@.contains_key(k2) implies self.at@[k2] == pre.at@[k2] && self.at@[k2] != idx by {
                            assert(self.entries@[self.at@[k2]] == Some((k2, self.kv@[k2])));
                        }
                        assert((idx as u32) as int == idx as int);
                        Self::lemma_table_step(pre, *self, seed, idx as int, k, idx as int, d, t);
                    }
                },
                None => {
                    proof {
                        reveal(Inner::table_inv);
                        reveal(Inner::arena_inv);
                        assert forall|k2: K| #[trigger] self.kv@.contains_key(k2) implies self.at@[k2] != idx by {
                            assert(self.entries@[self.at@[k2]] == Some((k2, self.kv@[k2])));
                        }
                    }
                    assert(self.table_inv(seed, idx + 1)) by {
                        reveal(Inner::table_inv);
                    }
                    assert(fill_upto(self.entries@, seed, self.mask, idx + 1) == Some(fill));
                },
            }
            idx = idx + 1;
        }
        true
    }

    /// Doubles the table until every live entry fits its chain. Gives up, leaving the
    /// shard untouched, once a further doubling would exceed [`MAX_TABLE_LEN`].
    fn grow(&mut self, build_hasher: &ShardBuildHasher, Ghost(seed): Ghost<u64>) -> (ok: bool)
        requires
            old(self).wf(seed),
            build_hasher.seed == seed,
        ensures
            final(self).wf(seed),
            final(self).entries == old(self).entries,
            final(self).free == old(self).free,
            final(self).count == old(self).count,
            final(self).kv == old(self).kv,
            final(self).at == old(self).at,
            ok == grow_fits(old(self).entries@, seed, old(self).buckets.len() as int),
            ok ==> final(self).buckets.len() >= 2 * old(self).buckets.len(),
            ok && power_of_two(old(self).buckets.len() as int) ==> power_of_two(final(self).buckets.len() as int),
            ok ==> rebuild_fits(old(self).entries@, seed, final(self).buckets.len()),
            !ok ==> *final(self) == *old(self),
    {
        let mut new_len = self.buckets.len();
        proof {
            reveal(Inner::arena_inv);
        }
        loop
            invariant
                self.wf(seed),
                *self == *old(self),
                build_hasher.seed == seed,
                1 <= old(self).buckets.len() <= new_len <= MAX_TABLE_LEN,
                power_of_two(old(self).buckets.len() as int) ==> power_of_two(new_len as int),
                grow_fits(old(self).entries@, seed, old(self).buckets.len() as int) == grow_fits(
                    old(self).entries@,
                    seed,
                    new_len as int,
                ),
            decreases MAX_TABLE_LEN - new_len,
        {
            if new_len > MAX_TABLE_LEN / 2 {
                return false;
            }
            proof {
                if power_of_two(new_len as int) {
                    assert(power_of_two((2 * new_len) as int)) by {
                        assert((2 * new_len) as int / 2 == new_len as int);
                    }
                }
            }
            new_len = new_len * 2;
            if self.rebuild(new_len, build_hasher, Ghost(seed)) {
                return true;
            }
        }
    }

    /// The shard has reached a machine limit for `key`: its arena holds every 32-bit
    /// index with none free, or the key's chain is full and no doubling of the table
    /// within [`MAX_TABLE_LEN`] fits every entry.
    spec fn at_limit(&self, seed: u64, key: K) -> bool {
        ||| (self.free.len() == 0 && self.entries.len() >= 0x1_0000_0000)
        ||| (self.chain_full(self.home_of(seed, key)) && !grow_fits(self.entries@, seed, self.buckets.len() as int))
    }

    /// Whether an insert of a new key into this shard needs neither a fresh arena slot
    /// beyond the 32-bit index range, nor a larger table: the arena has room, the load
    /// stays within the growth threshold, and the key's chain has a free slot.
    spec fn has_room_for(&self, seed: u64, key: K) -> bool {
        &&& (self.free.len() > 0 || self.entries.len() < 0x1_0000_0000)
        &&& (self.count + 1) * GROW_THRESHOLD_DEN <= self.buckets.len() * SLOTS_PER_BUCKET * GROW_THRESHOLD_NUM
        &&& !self.chain_full(self.home_of(seed, key))
    }

    /// A shard at a limit holds at least a bucket's worth of entries: an exhausted arena
    /// holds every 32-bit index, and a full chain starts with a full bucket, whose seven
    /// slots name seven distinct keys.
    proof fn lemma_limit_crowded(&self, seed: u64, key: K)
        requires
            self.wf(seed),
            self.tight(),
            self.at_limit(seed, key),
        ensures
            self.kv@.len() >= 7,
    {
        reveal(Inner::arena_inv);
        reveal(Inner::table_inv);
        if self.free.len() == 0 && self.entries.len() >= 0x1_0000_0000 {
            return;
        }
        let home = self.home_of(seed, key);
        let b = chain_spec(home, 0, self.mask) as int;
        lemma_chain_le(home, 0, self.mask);
        assert(bucket_full(self.buckets@[b].meta));
        let slots = self.buckets@[b].slots@;
        let ks = Seq::new(7, |t: int| self.key_at(slots[t].idx_spec() as int));
        assert forall|t: int| 0 <= t < 7 implies {
            &&& self.kv@.contains_key(#[trigger] ks[t])
            &&& self.slot_of(seed, ks[t]) == (b, t)
        } by {
            assert(occupied_bit(self.buckets@[b].meta, t));
        }
        assert forall|t1: int, t2: int| 0 <= t1 < ks.len() && 0 <= t2 < ks.len() && t1 != t2 implies ks[t1]
            != ks[t2] by {
            assert(self.slot_of(seed, ks[t1]) == (b, t1));
            assert(self.slot_of(seed, ks[t2]) == (b, t2));
        }
        assert(ks.no_duplicates());
        ks.unique_seq_to_set();
        assert(ks.to_set().subset_of(self.kv@.dom())) by {
            assert forall|k: K| ks.to_set().contains(k) implies self.kv@.dom().contains(k) by {
                let t = choose|t: int| 0 <= t < ks.len() && ks[t] == k;
                assert(self.kv@.contains_key(ks[t]));
            }
        }
        vstd::set_lib::lemma_len_subset(ks.to_set(), self.kv@.dom());
    }

    /// A full chain for a key not held is crowded in the current table: each of its
    /// buckets has seven occupied slots, naming seven distinct held keys that the bucket
    /// is in the chain of.
    proof fn lemma_full_chain_crowded(&self, seed: u64, key: K)
        requires
            self.wf(seed),
            self.chain_full(self.home_of(seed, key)),
            !self.kv@.contains_key(key),
        ensures
            chain_crowded(self.kv@.dom(), seed, key, self.mask),
    {
        reveal(Inner::arena_inv);
        reveal(Inner::table_inv);
        let home = self.home_of(seed, key);
        assert forall|d: int| 0 <= d < 4 implies #[trigger] bucket_crowded(self.kv@.dom(), seed, key, d, self.mask) by {
            let b = chain_spec(home, d, self.mask) as int;
            lemma_chain_le(home, d, self.mask);
            assert(bucket_full(self.buckets@[b].meta));
            let slots = self.buckets@[b].slots@;
            let ks = Seq::new(7, |t: int| self.key_at(slots[t].idx_spec() as int));
            assert forall|t: int| 0 <= t < 7 implies {
                &&& self.kv@.contains_key(#[trigger] ks[t])
                &&& self.slot_of(seed, ks[t]) == (b, t)
                &&& 0 <= self.loc@[ks[t]].0 < 4
            } by {
                assert(occupied_bit(self.buckets@[b].meta, t));
            }
            assert forall|t1: int, t2: int| 0 <= t1 < ks.len() && 0 <= t2 < ks.len() && t1 != t2 implies ks[t1]
                != ks[t2] by {
                assert(self.slot_of(seed, ks[t1]) == (b, t1));
                assert(self.slot_of(seed, ks[t2]) == (b, t2));
            }
            assert(ks.no_duplicates());
            ks.unique_seq_to_set();
            let st = ks.to_set();
            assert(st.subset_of(self.kv@.dom())) by {
                assert forall|k: K| st.contains(k) implies self.kv@.dom().contains(k) by {
                    let t = choose|t: int| 0 <= t < ks.len() && ks[t] == k;
                    assert(self.kv@.contains_key(ks[t]));
                }
            }
            assert forall|k2: K| #![trigger st.contains(k2)] st.contains(k2) implies shares_bucket(seed, k2, key, d, self.mask) by {
                let t = choose|t: int| 0 <= t < ks.len() && ks[t] == k2;
                assert(self.kv@.contains_key(ks[t]));
                let e = self.loc@[k2].0;
                assert(0 <= e < 4 && chain_bucket(key_digest(seed, k2), e, self.mask) == chain_bucket(key_digest(seed, key), d, self.mask));
            }
            assert(!st.contains(key));
            assert(st.subset_of(self.kv@.dom()) && st.finite() && st.len() >= 7 && !st.contains(key));
        }
    }

    /// A rebuild of this shard's entries into a fresh table of `l` buckets that fails
    /// does so for a held key whose chain there is crowded.
    proof fn lemma_rebuild_fail_crowded(&self, seed: u64, l: int)
        requires
            self.wf(seed),
            1 <= l <= MAX_TABLE_LEN,
            !rebuild_fits(self.entries@, seed, l as usize),
        ensures
            exists|kk: K| #[trigger] self.kv@.contains_key(kk) && chain_crowded(self.kv@.dom(), seed, kk, (l - 1) as usize),
    {
        reveal(Inner::arena_inv);
        let entries = self.entries@;
        let mask = (l - 1) as usize;
        lemma_fill_fail(entries, seed, mask, entries.len() as int);
        let i = choose|i: int|
            #![trigger fill_upto(entries, seed, mask, i)]
            0 <= i < entries.len() && fill_upto(entries, seed, mask, i) is Some && entries[i] is Some && first_open(
                fill_upto(entries, seed, mask, i)->Some_0,
                bin_spec(key_digest(seed, entries[i]->Some_0.0), mask),
                mask,
            ) is None;
        let f = fill_upto(entries, seed, mask, i)->Some_0;
        let kk = self.key_at(i);
        let bin = bin_spec(key_digest(seed, kk), mask);
        lemma_fill_count(entries, seed, mask, i);
        lemma_first_open(f, bin, mask);
        assert(self.kv@.contains_key(kk));
        assert forall|d: int| 0 <= d < 4 implies #[trigger] bucket_crowded(self.kv@.dom(), seed, kk, d, mask) by {
            let b = chain_spec(bin, d, mask) as int;
            lemma_chain_le(bin, d, mask);
            let ps = placed_in(entries, seed, mask, i, b);
            assert(ps.finite() && ps.len() == f[b]);
            assert(f[b] >= 7);
            let g = |j: int| self.key_at(j);
            let st = ps.map(g);
            assert(vstd::relations::injective_on(g, ps)) by {
                assert forall|j1: int, j2: int| ps.contains(j1) && ps.contains(j2) && #[trigger] g(j1) == #[trigger] g(j2) implies j1
                    == j2 by {
                    assert(entries[j1] is Some && entries[j2] is Some);
                    assert(self.at@[self.key_at(j1)] == j1);
                    assert(self.at@[self.key_at(j2)] == j2);
                }
            }
            vstd::set_lib::lemma_map_size(ps, st, g);
            assert forall|k2: K| #![trigger st.contains(k2)] st.contains(k2) implies self.kv@.dom().contains(k2) && k2 != kk
                && shares_bucket(seed, k2, kk, d, mask) by {
                let j = choose|j: int| ps.contains(j) && g(j) == k2;
                assert(ps.contains(j));
                assert(0 <= j < i && entries[j] is Some);
                assert(self.kv@.contains_key(self.key_at(j)));
                assert(self.at@[self.key_at(j)] == j);
                assert(self.at@[kk] == i);
                let e = choose|e: int| 0 <= e < 4 && chain_spec(bin_spec(key_digest(seed, entries[j]->Some_0.0), mask), e, mask) == b;
                assert(0 <= e < 4 && chain_bucket(key_digest(seed, k2), e, mask) == chain_bucket(key_digest(seed, kk), d, mask));
            }
            assert(st.subset_of(self.kv@.dom()) && st.finite() && st.len() >= 7 && !st.contains(kk));
        }
    }

    /// A shard at a limit for a key it does not hold is saturated: its arena holds every
    /// 32-bit index, or even a table of more than half of [`MAX_TABLE_LEN`] buckets has a
    /// crowded chain.
    proof fn lemma_limit_saturated(&self, seed: u64, key: K)
        requires
            self.wf(seed),
            self.tight(),
            self.at_limit(seed, key),
            !self.kv@.contains_key(key),
        ensures
            self.kv@.len() >= 0x1_0000_0000 || saturated(self.kv@.dom(), seed, key),
    {
        reveal(Inner::arena_inv);
        if self.free.len() == 0 && self.entries.len() >= 0x1_0000_0000 {
            return;
        }
        let len = self.buckets.len() as int;
        lemma_grow_fails(self.entries@, seed, len);
        if len > MAX_TABLE_LEN / 2 {
            self.lemma_full_chain_crowded(seed, key);
            assert(chain_crowded(self.kv@.dom(), seed, key, (len - 1) as usize));
        } else {
            let l = choose|l: int|
                #![trigger rebuild_fits(self.entries@, seed, l as usize)]
                MAX_TABLE_LEN / 2 < l <= MAX_TABLE_LEN && !rebuild_fits(self.entries@, seed, l as usize);
            self.lemma_rebuild_fail_crowded(seed, l);
            let kk = choose|kk: K| #[trigger] self.kv@.contains_key(kk) && chain_crowded(self.kv@.dom(), seed, kk, (l - 1) as usize);
            assert(chain_crowded(self.kv@.dom(), seed, kk, (l - 1) as usize));
        }
    }

    /// Overwrites the value of the held key at arena index `idx`, returning the old value.
    fn replace_value(&mut self, idx: u32, key: K, value: V, Ghost(seed): Ghost<u64>) -> (r: Option<V>)
        requires
            old(self).wf(seed),
            old(self).kv@.contains_key(key),
            idx == old(self).at@[key],
        ensures
            final(self).wf(seed),
            final(self).kv@ == old(self).kv@.insert(key, value),
            r == Some(old(self).kv@[key]),
            final(self).entries.len() == old(self).entries.len(),
            final(self).free == old(self).free,
            final(self).count == old(self).count,
    {
        proof {
            reveal(Inner::arena_inv);
            reveal(Inner::table_inv);
        }
        let ghost pre = *self;
        let mut entry = Some((key, value));
        std::mem::swap(&mut self.entries[idx as usize], &mut entry);
        self.kv = Ghost(self.kv@.insert(key, value));
        proof {
            assert(self.entries@ == pre.entries@.update(idx as int, Some((key, value))));
            assert(self.kv@.dom() =~= pre.kv@.dom());
            assert forall|i: int|
                0 <= i < self.entries.len() && (#[trigger] self.entries@[i]).is_some() implies {
                    &&& self.kv@.contains_key(self.key_at(i))
                    &&& self.at@[self.key_at(i)] == i
                } by {
                if i != idx as int {
                    assert(self.entries@[i] == pre.entries@[i]);
                }
            }
            assert forall|k: K| #[trigger] self.kv@.contains_key(k) implies {
                    &&& self.at@.contains_key(k)
                    &&& 0 <= self.at@[k] < self.entries.len()
                    &&& self.entries@[self.at@[k]] == Some((k, self.kv@[k]))
                } by {
                if k != key {
                    assert(pre.at@[k] != idx as int);
                }
            }
            assert(self.arena_inv());
            assert(self.table_inv(seed, self.entries.len() as int));
        }
        match entry {
            Some((_, v)) => Some(v),
            None => None,
        }
    }

    /// Takes an empty arena position for a new entry: the most recently freed one, else
    /// a fresh one at the end while indices stay within 32 bits.
    fn reserve(&mut self, Ghost(seed): Ghost<u64>) -> (r: Option<u32>)
        requires
            old(self).wf(seed),
        ensures
            final(self).wf(seed),
            final(self).buckets == old(self).buckets,
            final(self).mask == old(self).mask,
            final(self).count == old(self).count,
            final(self).kv == old(self).kv,
            final(self).at == old(self).at,
            final(self).loc == old(self).loc,
            match r {
                Some(idx) => {
                    &&& idx < final(self).entries.len()
                    &&& final(self).entries@[idx as int].is_none()
                    &&& forall|j: int| 0 <= j < final(self).free.len() ==> #[trigger] final(self).free@[j] != idx
                    &&& final(self).count + 1 + final(self).free.len() <= final(self).entries.len()
                    &&& ((old(self).free.len() > 0 && final(self).entries == old(self).entries
                        && old(self).free@ == final(self).free@.push(idx)) || (old(self).free.len() == 0
                        && final(self).free@ == old(self).free@ && final(self).entries@ == old(
                        self,
                    ).entries@.push(None)))
                },
                None => {
                    &&& final(self).entries == old(self).entries
                    &&& final(self).free@ == old(self).free@
                    &&& old(self).free.len() == 0
                    &&& old(self).entries.len() >= 0x1_0000_0000
                },
            },
    {
        proof {
            reveal(Inner::arena_inv);
            reveal(Inner::table_inv);
        }
        let ghost pre = *self;
        match self.free.pop() {
            Some(i) => {
                proof {
                    assert(pre.free@[pre.free.len() - 1] == i);
                    assert(pre.free@ =~= self.free@.push(i));
                    assert forall|j: int| 0 <= j < self.free.len() implies #[trigger] self.free@[j] != i by {
                        assert(pre.free@[j] == self.free@[j]);
                    }
                    assert(self.arena_inv());
                    assert(self.table_inv(seed, self.entries.len() as int));
                }
                Some(i)
            },
            None => {
                if self.entries.len() > 0xffff_ffff {
                    return None;
                }
                self.entries.push(None);
                proof {
                    let n = pre.entries.len() as int;
                    assert forall|i: int|
                        0 <= i < self.entries.len() && (#[trigger] self.entries@[i]).is_some() implies {
                            &&& self.kv@.contains_key(self.key_at(i))
                            &&& self.at@[self.key_at(i)] == i
                        } by {
                        assert(i < n);
                        assert(self.entries@[i] == pre.entries@[i]);
                    }
                    assert forall|b: int, s: int|
                        0 <= b < self.buckets.len() && #[trigger] occupied_bit(self.buckets@[b].meta, s) implies {
                            let i = self.buckets@[b].slots@[s].idx_spec() as int;
                            &&& 0 <= i < self.entries.len()
                            &&& i < self.entries.len()
                            &&& self.entries@[i].is_some()
                            &&& self.slot_of(seed, self.key_at(i)) == (b, s)
                        } by {
                        let i = self.buckets@[b].slots@[s].idx_spec() as int;
                        assert(i < n);
                        assert(self.entries@[i] == pre.entries@[i]);
                    }
                    assert(self.arena_inv());
                    assert(self.table_inv(seed, self.entries.len() as int));
                }
                Some((self.entries.len() - 1) as u32)
            },
        }
    }

    /// Writes a new entry into the reserved arena position `idx` once its slot has been
    /// placed in the table: `pre` is the shard just before the placement.
    fn link_entry(
        &mut self,
        key: K,
        value: V,
        idx: u32,
        Ghost(pre): Ghost<Self>,
        Ghost(d): Ghost<int>,
        Ghost(t): Ghost<int>,
        Ghost(seed): Ghost<u64>,
    )
        requires
            pre.wf(seed),
            !pre.kv@.contains_key(key),
            idx < pre.entries.len(),
            pre.entries@[idx as int].is_none(),
            forall|j: int| 0 <= j < pre.free.len() ==> #[trigger] pre.free@[j] != idx,
            pre.count + 1 + pre.free.len() <= pre.entries.len(),
            0 <= d < 4,
            placed_at(
                pre.buckets@,
                old(self).buckets@,
                chain_spec(pre.home_of(seed, key), d, pre.mask),
                t,
                fp_spec(key_digest(seed, key)),
                idx,
            ),
            old(self).shape(),
            old(self).mask == pre.mask,
            old(self).entries == pre.entries,
            old(self).free == pre.free,
            old(self).count == pre.count,
            old(self).kv == pre.kv,
            old(self).at == pre.at,
            old(self).loc == pre.loc,
        ensures
            final(self).wf(seed),
            final(self).kv@ == pre.kv@.insert(key, value),
            final(self).entries.len() == pre.entries.len(),
            final(self).free == pre.free,
            final(self).count == pre.count + 1,
    {
        let ghost placed = *self;
        self.entries.set(idx as usize, Some((key, value)));
        self.count = self.count + 1;
        self.kv = Ghost(self.kv@.insert(key, value));
        self.at = Ghost(self.at@.insert(key, idx as int));
        self.loc = Ghost(self.loc@.insert(key, (d, t)));
        proof {
            reveal(Inner::arena_inv);
            let n = self.entries.len() as int;
            assert forall|j: int|
                0 <= j < n && j != idx as int && (#[trigger] self.entries@[j]).is_some() implies self.key_at(j)
                    != key by {
                assert(self.entries@[j] == placed.entries@[j]);
                assert(placed.kv@.contains_key(placed.key_at(j)));
            }
            assert forall|k2: K| k2 != key && #[trigger] pre.kv@.contains_key(k2) implies self.at@[k2]
                == pre.at@[k2] && self.at@[k2] != idx as int by {
                assert(pre.entries@[pre.at@[k2]] == Some((k2, pre.kv@[k2])));
            }
            assert forall|k2: K| k2 != key implies (#[trigger] self.kv@.contains_key(k2) == pre.kv@.contains_key(k2)) by {}
            assert forall|j: int| 0 <= j < n && j != idx as int implies #[trigger] self.entries@[j] == pre.entries@[j] by {}
            Self::lemma_table_step(pre, *self, seed, n, key, idx as int, d, t);
            assert(self.kv@.dom() =~= pre.kv@.dom().insert(key));
            assert forall|i: int|
                0 <= i < self.entries.len() && (#[trigger] self.entries@[i]).is_some() implies {
                    &&& self.kv@.contains_key(self.key_at(i))
                    &&& self.at@[self.key_at(i)] == i
                } by {
                if i != idx as int {
                    assert(self.entries@[i] == pre.entries@[i]);
                }
            }
            assert forall|k: K| #[trigger] self.kv@.contains_key(k) implies {
                    &&& self.at@.contains_key(k)
                    &&& 0 <= self.at@[k] < self.entries.len()
                    &&& self.entries@[self.at@[k]] == Some((k, self.kv@[k]))
                } by {
                if k != key {
                    assert(pre.at@[k] != idx as int);
                }
            }
            assert forall|j: int|
                0 <= j < self.free.len() implies {
                    &&& (#[trigger] self.free@[j]) < self.entries.len()
                    &&& self.entries@[self.free@[j] as int].is_none()
                } by {
                assert(pre.free@[j] != idx);
            }
            assert(self.arena_inv());
        }
    }

    /// Places a new entry reserved at arena index `idx`: into the free slot `first_free`
    /// found by the scan when one is given, else into the first free slot of its chain,
    /// doubling the table until one is found.
    fn place_new(
        &mut self,
        key: K,
        value: V,
        idx: u32,
        digest: u64,
        first_free: Option<(usize, usize)>,
        build_hasher: &ShardBuildHasher,
        Ghost(seed): Ghost<u64>,
    ) -> (r: Result<(), (K, V)>)
        requires
            old(self).wf(seed),
            build_hasher.seed == seed,
            digest == key_digest(seed, key),
            !old(self).kv@.contains_key(key),
            idx < old(self).entries.len(),
            old(self).entries@[idx as int].is_none(),
            forall|j: int| 0 <= j < old(self).free.len() ==> #[trigger] old(self).free@[j] != idx,
            old(self).count + 1 + old(self).free.len() <= old(self).entries.len(),
            match first_free {
                Some((b, t)) => {
                    &&& in_chain(old(self).home_of(seed, key), b, old(self).mask)
                    &&& b < old(self).buckets.len()
                    &&& t < 7
                    &&& !occupied_bit(old(self).buckets@[b as int].meta, t as int)
                    &&& t <= hw_spec(old(self).buckets@[b as int].meta)
                },
                None => true,
            },
        ensures
            final(self).wf(seed),
            match r {
                Ok(()) => {
                    &&& final(self).kv@ == old(self).kv@.insert(key, value)
                    &&& final(self).entries.len() == old(self).entries.len()
                    &&& final(self).free == old(self).free
                    &&& final(self).count == old(self).count + 1
                },
                Err((k, v)) => {
                    &&& k == key
                    &&& v == value
                    &&& first_free is None
                    &&& final(self).entries == old(self).entries
                    &&& final(self).free == old(self).free
                    &&& final(self).count == old(self).count
                    &&& final(self).kv == old(self).kv
                    &&& final(self).at == old(self).at
                    &&& final(self).chain_full(final(self).home_of(seed, key))
                    &&& !grow_fits(final(self).entries@, seed, final(self).buckets.len() as int)
                },
            },
    {
        let fp = fp_of(digest);
        let ghost pre = *self;
        if let Some((bidx, t)) = first_free {
            proof {
                assert(self.buckets@[bidx as int].wf());
            }
            self.claim(bidx, t);
            let mut bucket = self.buckets[bidx];
            assert(bucket.wf() && occupied_bit(bucket.meta, t as int));
            bucket.slots[t] = Slot::pack(fp, idx);
            self.buckets.set(bidx, bucket);
            assert forall|b: int| 0 <= b < self.buckets.len() implies #[trigger] self.buckets@[b].wf() by {
                if b != bidx {
                    assert(pre.buckets@[b].wf());
                }
            }
            let ghost d = choose|d: int| 0 <= d < 4 && chain_spec(pre.home_of(seed, key), d, pre.mask) == bidx;
            assert(placed_at(pre.buckets@, self.buckets@, chain_spec(pre.home_of(seed, key), d, pre.mask), t as int, fp, idx));
            self.link_entry(key, value, idx, Ghost(pre), Ghost(d), Ghost(t as int), Ghost(seed));
            return Ok(());
        }
        let mut bin = bin_of(digest, self.mask);
        loop
            invariant
                self.wf(seed),
                self.entries == pre.entries,
                self.free == pre.free,
                self.count == pre.count,
                self.kv == pre.kv,
                self.at == pre.at,
                bin == self.home_of(seed, key),
                build_hasher.seed == seed,
                digest == key_digest(seed, key),
                fp == fp_spec(digest),
                first_free is None,
                pre == *old(self),
                !self.kv@.contains_key(key),
                idx < self.entries.len(),
                self.entries@[idx as int].is_none(),
                forall|j: int| 0 <= j < self.free.len() ==> #[trigger] self.free@[j] != idx,
                self.count + 1 + self.free.len() <= self.entries.len(),
            decreases MAX_TABLE_LEN - self.buckets.len(),
        {
            let ghost before = *self;
            proof {
                lemma_bin_le(digest, self.mask);
            }
            if self.place(bin, fp, idx) {
                let ghost (d, t) = choose|d: int, t: int|
                    0 <= d < 4 && #[trigger] placed_at(
                        before.buckets@,
                        self.buckets@,
                        chain_spec(bin, d, before.mask),
                        t,
                        fp,
                        idx,
                    );
                self.link_entry(key, value, idx, Ghost(before), Ghost(d), Ghost(t), Ghost(seed));
                return Ok(());
            }
            let ghost unplaced = *self;
            if !self.grow(build_hasher, Ghost(seed)) {
                assert(*self == unplaced);
                return Err((key, value));
            }
            bin = bin_of(digest, self.mask);
        }
    }

    /// Inserts `(key, value)`, returning the value previously held for `key`. Grows the
    /// table when occupancy would exceed three fifths of the slots. Hands the pair back,
    /// leaving the held pairs unchanged, when the arena's 32-bit index range is exhausted
    /// or the table cannot grow any further.
    fn try_insert(
        &mut self,
        key: K,
        value: V,
        digest: u64,
        build_hasher: &ShardBuildHasher,
        Ghost(seed): Ghost<u64>,
    ) -> (r: Result<Option<V>, (K, V)>)
        requires
            old(self).wf(seed),
            build_hasher.seed == seed,
            digest == key_digest(seed, key),
        ensures
            final(self).wf(seed),
            old(self).tight() ==> final(self).tight(),
            match r {
                Ok(Some(v)) => {
                    &&& old(self).kv@.contains_key(key)
                    &&& v == old(self).kv@[key]
                    &&& final(self).kv@ == old(self).kv@.insert(key, value)
                },
                Ok(None) => {
                    &&& !old(self).kv@.contains_key(key)
                    &&& final(self).kv@ == old(self).kv@.insert(key, value)
                },
                Err((k, v)) => {
                    &&& k == key
                    &&& v == value
                    &&& !old(self).kv@.contains_key(key)
                    &&& !old(self).has_room_for(seed, key)
                    &&& final(self).kv@ == old(self).kv@
                    &&& final(self).at_limit(seed, key)
                },
            },
    {
        let fp = fp_of(digest);
        let bin = bin_of(digest, self.mask);
        let (hit, first_free) = self.scan(bin, fp, &key, Ghost(seed));
        if let Some((_, _, idx)) = hit {
            return Ok(self.replace_value(idx, key, value, Ghost(seed)));
        }
        let ghost start = *self;
        let mut grew = false;
        let count = self.count as u128;
        let len = self.buckets.len() as u128;
        let den = GROW_THRESHOLD_DEN as u128;
        let slots = SLOTS_PER_BUCKET as u128;
        let num = GROW_THRESHOLD_NUM as u128;
        proof {
            assert(count + 1 <= 0x1_0000_0000_0000_0000 && len <= 0x1_0000_0000_0000_0000);
            assert((count + 1) * den <= 0x1_0000_0000_0000_0000 * 5 && len * slots <= 0x1_0000_0000_0000_0000 * 7
                && len * slots * num <= 0x1_0000_0000_0000_0000 * 21) by (nonlinear_arith)
                requires
                    count + 1 <= 0x1_0000_0000_0000_0000,
                    len <= 0x1_0000_0000_0000_0000,
                    den == 5,
                    slots == 7,
                    num == 3,
            ;
        }
        if (count + 1) * den > len * slots * num {
            grew = self.grow(build_hasher, Ghost(seed));
        }
        let ghost grown = *self;
        let free_before = self.free.len();
        // Reserve the arena position first, left empty, so that a rebuild triggered by
        // the placement below does not place this entry.
        let idx = match self.reserve(Ghost(seed)) {
            Some(i) => i,
            None => {
                return Err((key, value));
            },
        };
        let slot = if grew {
            None
        } else {
            first_free
        };
        match self.place_new(key, value, idx, digest, slot, build_hasher, Ghost(seed)) {
            Ok(()) => Ok(None),
            Err((key, value)) => {
                let ghost placed = *self;
                if self.free.len() < free_before {
                    self.free.push(idx);
                    proof {
                        assert(self.free@ =~= grown.free@);
                    }
                } else {
                    self.entries.pop();
                    proof {
                        assert(self.entries@ =~= grown.entries@);
                    }
                }
                proof {
                    reveal(Inner::arena_inv);
                    reveal(Inner::table_inv);
                    assert(self.arena_inv());
                    assert forall|b: int, s: int|
                        0 <= b < self.buckets.len() && #[trigger] occupied_bit(self.buckets@[b].meta, s) implies {
                            let i = self.buckets@[b].slots@[s].idx_spec() as int;
                            &&& 0 <= i < self.entries.len()
                            &&& i < self.entries.len()
                            &&& self.entries@[i].is_some()
                            &&& self.slot_of(seed, self.key_at(i)) == (b, s)
                        } by {
                        let i = self.buckets@[b].slots@[s].idx_spec() as int;
                        assert(placed.entries@[i].is_some());
                        assert(i != idx as int);
                    }
                    assert(self.table_inv(seed, self.entries.len() as int));
                    if self.entries@ != placed.entries@ {
                        assert(placed.entries@ =~= self.entries@.push(None));
                        lemma_grow_fits_vacant(self.entries@, seed, self.buckets.len() as int);
                    }
                    assert(self.buckets == placed.buckets && self.mask == placed.mask);
                }
                Err((key, value))
            },
        }
    }

    /// Removes `key`, returning its value. The slot's occupancy bit is cleared and the
    /// arena position goes to the free list, both reusable at once.
    fn remove(&mut self, key: &K, digest: u64, Ghost(seed): Ghost<u64>) -> (r: Option<V>)
        requires
            old(self).wf(seed),
            digest == key_digest(seed, *key),
        ensures
            final(self).wf(seed),
            old(self).tight() ==> final(self).tight(),
            final(self).kv@ == old(self).kv@.remove(*key),
            r == (if old(self).kv@.contains_key(*key) {
                Some(old(self).kv@[*key])
            } else {
                None
            }),
    {
        let bin = bin_of(digest, self.mask);
        let (bidx, s, idx) = match self.locate(bin, fp_of(digest), key, Ghost(seed)) {
            Some(hit) => hit,
            None => {
                proof {
                    assert(self.kv@.remove(*key) =~= self.kv@);
                }
                return None;
            },
        };
        let ghost pre = *self;
        proof {
            reveal(Inner::arena_inv);
            reveal(Inner::table_inv);
            assert(self.buckets@[bidx as int].wf());
        }
        let mut bucket = self.buckets[bidx];
        let meta = bucket.meta;
        bucket.meta = meta & !(1u64 << (s as u64));
        self.buckets.set(bidx, bucket);
        let mut entry: Option<(K, V)> = None;
        std::mem::swap(&mut self.entries[idx as usize], &mut entry);
        self.free.push(idx);
        self.count = self.count - 1;
        self.kv = Ghost(self.kv@.remove(*key));
        self.at = Ghost(self.at@.remove(*key));
        self.loc = Ghost(self.loc@.remove(*key));
        proof {
            let sh = s as u64;
            assert forall|t: int| #[trigger] occupied_bit(self.buckets@[bidx as int].meta, t) == (occupied_bit(
                meta,
                t,
            ) && t != s) by {
                if 0 <= t < 7 {
                    lemma_clear_bit(meta, sh, t as u64);
                }
            }
            lemma_clear_bit(meta, sh, 0);
            assert(self.buckets@[bidx as int].wf());
            assert forall|b: int| 0 <= b < self.buckets.len() implies #[trigger] self.buckets@[b].wf() by {
                if b != bidx {
                    assert(pre.buckets@[b].wf());
                }
            }
            assert(self.entries@ == pre.entries@.update(idx as int, None));
            // the arena
            assert(self.kv@.dom() =~= pre.kv@.dom().remove(*key));
            assert forall|i: int|
                0 <= i < self.entries.len() && (#[trigger] self.entries@[i]).is_some() implies {
                    &&& self.kv@.contains_key(self.key_at(i))
                    &&& self.at@[self.key_at(i)] == i
                } by {
                assert(i != idx as int);
                assert(self.entries@[i] == pre.entries@[i]);
                assert(pre.at@[pre.key_at(i)] == i);
            }
            assert forall|k: K| #[trigger] self.kv@.contains_key(k) implies {
                    &&& self.at@.contains_key(k)
                    &&& 0 <= self.at@[k] < self.entries.len()
                    &&& self.entries@[self.at@[k]] == Some((k, self.kv@[k]))
                } by {
                assert(pre.entries@[pre.at@[k]] == Some((k, pre.kv@[k])));
                assert(pre.at@[k] != idx as int);
            }
            assert forall|j: int|
                0 <= j < self.free.len() implies {
                    &&& (#[trigger] self.free@[j]) < self.entries.len()
                    &&& self.entries@[self.free@[j] as int].is_none()
                } by {
                if j < pre.free.len() {
                    assert(self.free@[j] == pre.free@[j]);
                }
            }
            assert forall|j1: int, j2: int|
                0 <= j1 < self.free.len() && 0 <= j2 < self.free.len() && j1 != j2 implies #[trigger] self.free@[j1]
                    != #[trigger] self.free@[j2] by {
                if j1 < pre.free.len() && j2 < pre.free.len() {
                    assert(self.free@[j1] == pre.free@[j1]);
                    assert(self.free@[j2] == pre.free@[j2]);
                } else if j1 < pre.free.len() {
                    assert(pre.entries@[pre.free@[j1] as int].is_none());
                } else {
                    assert(pre.entries@[pre.free@[j2] as int].is_none());
                }
            }
            assert(self.arena_inv());
            // the table
            assert forall|b: int, t: int|
                0 <= b < self.buckets.len() && #[trigger] occupied_bit(self.buckets@[b].meta, t) implies {
                    let i = self.buckets@[b].slots@[t].idx_spec() as int;
                    &&& 0 <= i < self.entries.len()
                    &&& i < self.entries.len()
                    &&& self.entries@[i].is_some()
                    &&& self.slot_of(seed, self.key_at(i)) == (b, t)
                } by {
                assert(occupied_bit(pre.buckets@[b].meta, t));
                assert(self.buckets@[b].slots@[t] == pre.buckets@[b].slots@[t]);
                let i = pre.buckets@[b].slots@[t].idx_spec() as int;
                if i == idx as int {
                    assert(pre.key_at(i) == *key);
                }
                assert(i != idx as int);
                assert(self.entries@[i] == pre.entries@[i]);
                assert(pre.key_at(i) != *key);
            }
            assert forall|k: K| #[trigger]
                self.kv@.contains_key(k) && self.at@[k] < self.entries.len() implies {
                    let (b, t) = self.slot_of(seed, k);
                    &&& self.loc@.contains_key(k)
                    &&& 0 <= self.loc@[k].0 < 4
                    &&& 0 <= t < 7
                    &&& occupied_bit(self.buckets@[b].meta, t)
                    &&& self.buckets@[b].slots@[t].idx_spec() == self.at@[k]
                    &&& self.buckets@[b].slots@[t].fp_spec() == fp_spec(key_digest(seed, k))
                } by {
                assert(pre.kv@.contains_key(k));
                assert(pre.at@[k] != idx as int) by {
                    assert(pre.entries@[pre.at@[k]] == Some((k, pre.kv@[k])));
                }
                let (b, t) = pre.slot_of(seed, k);
                assert(self.slot_of(seed, k) == (b, t));
                lemma_chain_le(pre.home_of(seed, k), pre.loc@[k].0, pre.mask);
                assert(occupied_bit(pre.buckets@[b].meta, t));
                if b == bidx as int {
                    assert(t != s as int);
                    assert(occupied_bit(self.buckets@[bidx as int].meta, t));
                    assert(self.buckets@[bidx as int].slots == pre.buckets@[bidx as int].slots);
                } else {
                    assert(self.buckets@[b] == pre.buckets@[b]);
                }
            }
            assert(self.table_inv(seed, self.entries.len() as int));
        }
        match entry {
            Some((_, v)) => Some(v),
            None => None,
        }
    }

    /// The value held for `key`.
    fn get_value(&self, key: &K, digest: u64, Ghost(seed): Ghost<u64>) -> (r: Option<&V>)
        requires
            self.wf(seed),
            digest == key_digest(seed, *key),
        ensures
            match r {
                Some(v) => self.kv@.contains_key(*key) && *v == self.kv@[*key],
                None => !self.kv@.contains_key(*key),
            },
    {
        match self.locate(bin_of(digest, self.mask), fp_of(digest), key, Ghost(seed)) {
            Some((_, _, idx)) => {
                proof {
                    reveal(Inner::arena_inv);
                }
                match &self.entries[idx as usize] {
                    Some((_, v)) => Some(v),
                    None => None,
                }
            },
            None => None,
        }
    }

    /// Whether `key` is held.
    fn contains(&self, key: &K, digest: u64, Ghost(seed): Ghost<u64>) -> (r: bool)
        requires
            self.wf(seed),
            digest == key_digest(seed, *key),
        ensures
            r == self.kv@.contains_key(*key),
    {
        self.locate(bin_of(digest, self.mask), fp_of(digest), key, Ghost(seed)).is_some()
    }

    /// The number of held entries.
    fn len(&self, Ghost(seed): Ghost<u64>) -> (r: usize)
        requires
            self.wf(seed),
        ensures
            r == self.kv@.len(),
    {
        proof {
            reveal(Inner::arena_inv);
        }
        self.count
    }
}

// ---------------------------------------------------------------------------------
// Structural checks
// ---------------------------------------------------------------------------------

/// The number of occupied slots among the first `s` slots of a bucket.
pub open spec fn occupied_upto(meta: u64, s: int) -> nat
    decreases s,
{
    if s <= 0 {
        0
    } else {
        occupied_upto(meta, s - 1) + if occupied_bit(meta, s - 1) { 1nat } else { 0nat }
    }
}

/// The number of occupied slots in the first `i` buckets.
spec fn occupied_total(buckets: Seq<Bucket>, i: int) -> nat
    decreases i,
{
    if i <= 0 {
        0
    } else {
        occupied_total(buckets, i - 1) + occupied_upto(buckets[i - 1].meta, 7)
    }
}

proof fn lemma_occupied_total_monotone(buckets: Seq<Bucket>, i: int, k: int)
    requires
        0 <= i <= k,
    ensures
        occupied_total(buckets, i) <= occupied_total(buckets, k),
    decreases k - i,
{
    if i < k {
        lemma_occupied_total_monotone(buckets, i, k - 1);
    }
}

/// The occupied slots of the first `i` buckets, as `(bucket, slot)` pairs.
spec fn occupied_pairs(buckets: Seq<Bucket>, i: int) -> Set<(int, int)> {
    Set::new(|p: (int, int)| 0 <= p.0 < i && 0 <= p.1 < 7 && occupied_bit(buckets[p.0].meta, p.1))
}

/// The occupied slots among the first `s` slots of bucket `b`.
spec fn occupied_row(buckets: Seq<Bucket>, b: int, s: int) -> Set<(int, int)> {
    Set::new(|p: (int, int)| p.0 == b && 0 <= p.1 < s && occupied_bit(buckets[b].meta, p.1))
}

proof fn lemma_row_len(buckets: Seq<Bucket>, b: int, s: int)
    requires
        0 <= s <= 7,
    ensures
        occupied_row(buckets, b, s).finite(),
        occupied_row(buckets, b, s).len() == occupied_upto(buckets[b].meta, s),
    decreases s,
{
    if s == 0 {
        assert(occupied_row(buckets, b, s) =~= Set::empty());
    } else {
        lemma_row_len(buckets, b, s - 1);
        if occupied_bit(buckets[b].meta, s - 1) {
            assert(occupied_row(buckets, b, s) =~= occupied_row(buckets, b, s - 1).insert((b, s - 1)));
        } else {
            assert(occupied_row(buckets, b, s) =~= occupied_row(buckets, b, s - 1));
        }
    }
}

proof fn lemma_pairs_len(buckets: Seq<Bucket>, i: int)
    requires
        0 <= i,
    ensures
        occupied_pairs(buckets, i).finite(),
        occupied_pairs(buckets, i).len() == occupied_total(buckets, i),
    decreases i,
{
    if i == 0 {
        assert(occupied_pairs(buckets, i) =~= Set::empty());
    } else {
        lemma_pairs_len(buckets, i - 1);
        lemma_row_len(buckets, i - 1, 7);
        let a = occupied_pairs(buckets, i - 1);
        let r = occupied_row(buckets, i - 1, 7);
        assert(occupied_pairs(buckets, i) =~= a + r);
        assert(a.disjoint(r));
        vstd::set_lib::lemma_set_disjoint_lens(a, r);
    }
}

/// Every occupied slot of a bucket lies below its frontier, in the bits of `meta`.
proof fn lemma_occ_below_frontier(meta: u64)
    requires
        hw_spec(meta) <= 7,
        forall|s: int| #[trigger] occupied_bit(meta, s) ==> s < hw_spec(meta),
    ensures
        occ_spec(meta) & !(((1u64 << hw_spec(meta)) - 1) as u64) == 0,
{
    let h = hw_spec(meta);
    assert(occupied_bit(meta, 0) ==> 0 < h);
    assert(occupied_bit(meta, 1) ==> 1 < h);
    assert(occupied_bit(meta, 2) ==> 2 < h);
    assert(occupied_bit(meta, 3) ==> 3 < h);
    assert(occupied_bit(meta, 4) ==> 4 < h);
    assert(occupied_bit(meta, 5) ==> 5 < h);
    assert(occupied_bit(meta, 6) ==> 6 < h);
    assert((meta & 0x7f) & !(((1u64 << h) - 1) as u64) == 0) by (bit_vector)
        requires
            h <= 7,
            (meta >> 0u64) & 1u64 == 1u64 ==> 0 < h,
            (meta >> 1u64) & 1u64 == 1u64 ==> 1 < h,
            (meta >> 2u64) & 1u64 == 1u64 ==> 2 < h,
            (meta >> 3u64) & 1u64 == 1u64 ==> 3 < h,
            (meta >> 4u64) & 1u64 == 1u64 ==> 4 < h,
            (meta >> 5u64) & 1u64 == 1u64 ==> 5 < h,
            (meta >> 6u64) & 1u64 == 1u64 ==> 6 < h;
}

/// A bucket as it must look at rest: its frontier is within the bucket, its metadata
/// holds nothing but the occupancy bits and the frontier, no occupancy bit is set at or
/// beyond the frontier, every occupied slot is written and no slot at or beyond the
/// frontier is.
spec fn bucket_sound(b: Bucket) -> bool {
    let hw = hw_spec(b.meta);
    &&& hw <= 7
    &&& b.meta & !0x7f7fu64 == 0
    &&& occ_spec(b.meta) & !(((1u64 << hw) - 1) as u64) == 0
    &&& forall|s: int| 0 <= s < hw && #[trigger] occupied_bit(b.meta, s) ==> b.slots@[s].0 != 0
    &&& forall|s: int| hw <= s < 7 ==> #[trigger] b.slots@[s].0 == 0
}

/// Checks one bucket, returning whether it is sound and, if so, how many of its slots
/// are occupied.
fn check_bucket(b: &Bucket) -> (r: (bool, usize))
    ensures
        r.0 == bucket_sound(*b),
        r.0 ==> r.1 == occupied_upto(b.meta, 7),
{
    let meta = b.meta;
    let hw = hw_of(meta);
    if hw > SLOTS_PER_BUCKET as u64 {
        return (false, 0);
    }
    proof {
        assert(OCC_MASK | (OCC_MASK << HW_SHIFT) == 0x7f7fu64) by (bit_vector);
    }
    if meta & !(OCC_MASK | (OCC_MASK << HW_SHIFT)) != 0 {
        return (false, 0);
    }
    let occ = occ_of(meta);
    proof {
        assert(hw <= 7 ==> (1u64 << hw) >= 1) by (bit_vector);
    }
    if occ & !((1u64 << hw) - 1) != 0 {
        return (false, 0);
    }
    let mut live: usize = 0;
    let mut s: usize = 0;
    while s < SLOTS_PER_BUCKET
        invariant
            meta == b.meta,
            hw == hw_spec(meta),
            hw <= 7,
            s <= 7,
            live == occupied_upto(meta, s as int),
            live <= s,
            forall|t: int| 0 <= t < s && t < hw && #[trigger] occupied_bit(meta, t) ==> b.slots@[t].0 != 0,
            forall|t: int| hw <= t < s ==> #[trigger] b.slots@[t].0 == 0,
        decreases 7 - s,
    {
        if is_occupied(meta, s) {
            if (s as u64) < hw && b.slots[s].is_empty() {
                return (false, 0);
            }
            live = live + 1;
        }
        if (s as u64) >= hw && !b.slots[s].is_empty() {
            return (false, 0);
        }
        s = s + 1;
    }
    (true, live)
}

impl<K: ShardKey, V> Inner<K, V> {
    /// The shard as it must look at rest: every bucket is sound, the occupied slots
    /// number exactly the entries held, and the free list names distinct vacant arena
    /// positions.
    spec fn sound(&self) -> bool {
        &&& forall|b: int| 0 <= b < self.buckets.len() ==> #[trigger] bucket_sound(self.buckets@[b])
        &&& occupied_total(self.buckets@, self.buckets.len() as int) == self.count
        &&& forall|j: int| 0 <= j < self.free.len() ==> {
            &&& (#[trigger] self.free@[j]) < self.entries.len()
            &&& self.entries@[self.free@[j] as int] is None
        }
        &&& forall|j1: int, j2: int|
            0 <= j1 < self.free.len() && 0 <= j2 < self.free.len() && j1 != j2 ==> #[trigger] self.free@[j1]
                != #[trigger] self.free@[j2]
    }

    /// A consistent shard is sound: in particular its occupied slots and its entries are
    /// in one-to-one correspondence.
    proof fn lemma_sound(&self, seed: u64)
        requires
            self.wf(seed),
        ensures
            self.sound(),
    {
        reveal(Inner::arena_inv);
        reveal(Inner::table_inv);
        let n = self.buckets.len() as int;
        assert forall|b: int| 0 <= b < n implies #[trigger] bucket_sound(self.buckets@[b]) by {
            let bk = self.buckets@[b];
            assert(bk.wf());
            lemma_occ_below_frontier(bk.meta);
            assert forall|s: int| 0 <= s < hw_spec(bk.meta) && #[trigger] occupied_bit(bk.meta, s) implies bk.slots@[s].0
                != 0 by {
                let i = bk.slots@[s].idx_spec() as int;
                let k = self.key_at(i);
                assert(self.kv@.contains_key(k));
                assert(self.at@[k] == i);
                assert(self.slot_of(seed, k) == (b, s));
                let w = bk.slots@[s].0;
                assert((w >> 32u64) as u32 != 0 ==> w != 0) by (bit_vector);
            }
        }
        let occ = occupied_pairs(self.buckets@, n);
        lemma_pairs_len(self.buckets@, n);
        let f = |p: (int, int)| self.key_at(self.buckets@[p.0].slots@[p.1].idx_spec() as int);
        assert(vstd::relations::injective_on(f, occ)) by {
            assert forall|p1: (int, int), p2: (int, int)|
                occ.contains(p1) && occ.contains(p2) && #[trigger] f(p1) == #[trigger] f(p2) implies p1 == p2 by {
                let i1 = self.buckets@[p1.0].slots@[p1.1].idx_spec() as int;
                let i2 = self.buckets@[p2.0].slots@[p2.1].idx_spec() as int;
                assert(self.slot_of(seed, self.key_at(i1)) == p1);
                assert(self.slot_of(seed, self.key_at(i2)) == p2);
            }
        }
        assert(occ.map(f) =~= self.kv@.dom()) by {
            assert forall|k: K| #[trigger] occ.map(f).contains(k) implies self.kv@.contains_key(k) by {
                let p = choose|p: (int, int)| occ.contains(p) && f(p) == k;
                let i = self.buckets@[p.0].slots@[p.1].idx_spec() as int;
                assert(self.entries@[i].is_some());
            }
            assert forall|k: K| #[trigger] self.kv@.contains_key(k) implies occ.map(f).contains(k) by {
                let p = self.slot_of(seed, k);
                lemma_chain_le(self.home_of(seed, k), self.loc@[k].0, self.mask);
                assert(occupied_bit(self.buckets@[p.0].meta, p.1));
                assert(occ.contains(p));
                assert(self.entries@[self.at@[k]] == Some((k, self.kv@[k])));
                assert(f(p) == k);
            }
        }
        vstd::set_lib::lemma_map_size(occ, self.kv@.dom(), f);
    }

    /// Checks the shard's structure, visiting every bucket and the free list.
    fn check(&self) -> (ok: bool)
        ensures
            ok == self.sound(),
    {
        let mut occupied: usize = 0;
        let mut b: usize = 0;
        while b < self.buckets.len()
            invariant
                b <= self.buckets.len(),
                occupied == occupied_total(self.buckets@, b as int),
                forall|c: int| 0 <= c < b ==> #[trigger] bucket_sound(self.buckets@[c]),
            decreases self.buckets.len() - b,
        {
            let (ok, live) = check_bucket(&self.buckets[b]);
            if !ok {
                return false;
            }
            occupied = match occupied.checked_add(live) {
                Some(t) => t,
                None => {
                    proof {
                        lemma_occupied_total_monotone(self.buckets@, b as int + 1, self.buckets.len() as int);
                    }
                    return false;
                },
            };
            b = b + 1;
        }
        if occupied != self.count {
            return false;
        }
        let n = self.entries.len();
        let mut live: Vec<bool> = Vec::with_capacity(n);
        let mut i: usize = 0;
        while i < n
            invariant
                n == self.entries.len(),
                i <= n,
                live.len() == i,
                forall|e: int| 0 <= e < i ==> #[trigger] live@[e] == self.entries@[e].is_some(),
            decreases n - i,
        {
            live.push(self.entries[i].is_some());
            i = i + 1;
        }
        let mut j: usize = 0;
        while j < self.free.len()
            invariant
                n == self.entries.len(),
                live.len() == n,
                j <= self.free.len(),
                forall|e: int| 0 <= e < n ==> #[trigger] live@[e] == (self.entries@[e].is_some() || exists|q: int|
                    0 <= q < j && self.free@[q] == e),
                forall|q: int| 0 <= q < j ==> {
                    &&& (#[trigger] self.free@[q]) < n
                    &&& self.entries@[self.free@[q] as int] is None
                },
                forall|q1: int, q2: int|
                    0 <= q1 < j && 0 <= q2 < j && q1 != q2 ==> #[trigger] self.free@[q1]
                        != #[trigger] self.free@[q2],
            decreases self.free.len() - j,
        {
            let f = self.free[j] as usize;
            if f >= n {
                return false;
            }
            if live[f] {
                proof {
                    if !self.entries@[f as int].is_some() {
                        let q = choose|q: int| 0 <= q < j && self.free@[q] == f;
                        assert(self.free@[q] == self.free@[j as int]);
                    }
                }
                return false;
            }
            proof {
                assert forall|q: int| 0 <= q < j implies self.free@[q] != f by {
                    if self.free@[q] == f {
                        assert(live@[f as int]);
                    }
                }
            }
            let ghost pre_live = live@;
            live.set(f, true);
            proof {
                assert forall|e: int| 0 <= e < n implies #[trigger] live@[e] == (self.entries@[e].is_some()
                    || exists|q: int| 0 <= q < j + 1 && self.free@[q] == e) by {
                    if e == f {
                        assert(self.free@[j as int] == e);
                    } else {
                        assert(live@[e] == pre_live[e]);
                        if exists|q: int| 0 <= q < j + 1 && self.free@[q] == e {
                            let q = choose|q: int| 0 <= q < j + 1 && self.free@[q] == e;
                            assert(q != j);
                        }
                    }
                }
            }
            j = j + 1;
        }
        true
    }
}

/// The number of pairs held by the first `i` shards.
spec fn held_upto<K, V>(shards: Seq<Inner<K, V>>, i: int) -> nat
    decreases i,
{
    if i <= 0 {
        0
    } else {
        held_upto(shards, i - 1) + shards[i - 1].kv@.len()
    }
}

proof fn lemma_held_update<K, V>(shards: Seq<Inner<K, V>>, j: int, x: Inner<K, V>, i: int)
    requires
        0 <= j < shards.len(),
        0 <= i <= shards.len(),
    ensures
        held_upto(shards.update(j, x), i) == if j < i {
            held_upto(shards, i) - shards[j].kv@.len() + x.kv@.len()
        } else {
            held_upto(shards, i) as int
        },
    decreases i,
{
    if i > 0 {
        lemma_held_update(shards, j, x, i - 1);
    }
}

proof fn lemma_held_monotone<K, V>(shards: Seq<Inner<K, V>>, i: int, k: int)
    requires
        0 <= i <= k <= shards.len(),
    ensures
        held_upto(shards, i) <= held_upto(shards, k),
    decreases k - i,
{
    if i < k {
        lemma_held_monotone(shards, i, k - 1);
    }
}

proof fn lemma_held_zero<K, V>(shards: Seq<Inner<K, V>>, i: int)
    requires
        0 <= i <= shards.len(),
    ensures
        held_upto(shards, i) == 0 <==> forall|j: int| 0 <= j < i ==> #[trigger] shards[j].kv@.len() == 0,
    decreases i,
{
    if i > 0 {
        lemma_held_zero(shards, i - 1);
    }
}

/// A hash map sharding keys into tables of cache-line-sized bucket chains.
///
/// Each operation hashes its key once: the digest's high half selects the shard, its
/// low half the primary bin inside that shard's table. Lookups scan the bin's chain of
/// up to four buckets comparing fingerprints before touching the side arena, so most
/// hits cost a single bucket visit. Removals recycle both the slot and the arena
/// position at once.
///
/// [`RwShardedDlhtMap::len`] and [`RwShardedDlhtMap::is_empty`] visit every shard.
#[verifier::reject_recursive_types(K)]
pub struct RwShardedDlhtMap<K, V> {
    shards: Vec<Inner<K, V>>,
    build_hasher: ShardBuildHasher,
    all: Ghost<Map<K, V>>,
}

impl<K: ShardKey, V> View for RwShardedDlhtMap<K, V> {
    type V = Map<K, V>;

    closed spec fn view(&self) -> Map<K, V> {
        self.all@
    }
}

impl<K: ShardKey, V> RwShardedDlhtMap<K, V> {
    spec fn seed(&self) -> u64 {
        self.build_hasher.seed
    }

    /// The shard that holds `k`.
    spec fn shard_of(&self, k: K) -> int {
        reduce_spec(key_digest(self.seed(), k), self.shards.len()) as int
    }

    /// Every shard is consistent, holds exactly the keys routed to it, and together
    /// they hold exactly the map's pairs.
    pub closed spec fn wf(&self) -> bool {
        &&& forall|i: int| 0 <= i < self.shards.len() ==> #[trigger] self.shards@[i].wf(self.seed())
        &&& forall|i: int| 0 <= i < self.shards.len() ==> #[trigger] self.shards@[i].tight()
        &&& forall|i: int, k: K|
            0 <= i < self.shards.len() && #[trigger] self.shards@[i].kv@.contains_key(k) ==> self.shard_of(k) == i
        &&& forall|k: K| #[trigger]
            self.all@.contains_key(k) <==> (self.shards.len() > 0
                && self.shards@[self.shard_of(k)].kv@.contains_key(k))
        &&& forall|k: K| #[trigger]
            self.all@.contains_key(k) ==> self.all@[k] == self.shards@[self.shard_of(k)].kv@[k]
        &&& self.all@.dom().finite()
        &&& self.all@.len() == held_upto(self.shards@, self.shards.len() as int)
        &&& self.all@.len() <= usize::MAX
    }

    /// Whether inserting `key`, while not held, stays clear of the table's limits: its
    /// shard's arena has a free 32-bit index, the shard's load stays within the growth
    /// threshold, and the key's bucket chain has a free slot.
    pub closed spec fn has_room_for(&self, key: K) -> bool {
        self.shards.len() > 0 && self.shards@[self.shard_of(key)].has_room_for(self.seed(), key)
    }

    /// `key`'s shard has reached a machine limit: its arena holds every 32-bit index with
    /// none free, or the key's bucket chain is full and no doubling of the shard's table
    /// within [`MAX_TABLE_LEN`] places every entry.
    pub closed spec fn at_limit(&self, key: K) -> bool {
        self.shards.len() > 0 && self.shards@[self.shard_of(key)].at_limit(self.seed(), key)
    }

    /// A consistent map holds finitely many entries, and none without shards.
    pub proof fn lemma_view_finite(&self)
        requires
            self.wf(),
        ensures
            self@.dom().finite(),
            self.shard_count() == 0 ==> self@ == Map::<K, V>::empty(),
    {
        assert(self.shard_count() == 0 ==> self@ =~= Map::empty());
    }

    /// No key of a map holding fewer than seven pairs is at a limit: a full bucket chain
    /// takes seven keys of the key's own shard, and an exhausted arena takes every 32-bit
    /// index. So on such a map an insert of a new key always lands.
    pub proof fn lemma_sparse_no_limit(&self, key: K)
        requires
            self.wf(),
            self@.len() < 7,
        ensures
            !self.at_limit(key),
    {
        if self.at_limit(key) {
            let i = self.shard_of(key);
            lemma_reduce_bound(key_digest(self.seed(), key), self.shards.len());
            let sh = self.shards@[i];
            assert(sh.wf(self.seed()) && sh.tight());
            sh.lemma_limit_crowded(self.seed(), key);
            assert(sh.kv@.dom().subset_of(self@.dom())) by {
                assert forall|k: K| sh.kv@.dom().contains(k) implies self@.dom().contains(k) by {
                    assert(self.shards@[i].kv@.contains_key(k));
                }
            }
            vstd::set_lib::lemma_len_subset(sh.kv@.dom(), self@.dom());
        }
    }

    /// The seed of the map's key digests.
    pub closed spec fn hash_seed(&self) -> u64 {
        self.build_hasher.seed
    }

    /// A key not held is at a limit only where the map is saturated for it: the key's
    /// shard holds `2^32` pairs, or even a table of more than half of [`MAX_TABLE_LEN`]
    /// buckets has a chain, of the key or of a held key, whose every bucket seven other
    /// held keys may sit in.
    pub proof fn lemma_limit_saturated(&self, key: K)
        requires
            self.wf(),
            self.at_limit(key),
            !self@.contains_key(key),
        ensures
            self@.len() >= 0x1_0000_0000 || saturated(self@.dom(), self.hash_seed(), key),
    {
        let i = self.shard_of(key);
        lemma_reduce_bound(key_digest(self.seed(), key), self.shards.len());
        let sh = self.shards@[i];
        assert(sh.wf(self.seed()) && sh.tight());
        assert(!sh.kv@.contains_key(key));
        sh.lemma_limit_saturated(self.seed(), key);
        assert(sh.kv@.dom().subset_of(self@.dom())) by {
            assert forall|k: K| sh.kv@.dom().contains(k) implies self@.dom().contains(k) by {
                assert(self.shards@[i].kv@.contains_key(k));
            }
        }
        vstd::set_lib::lemma_len_subset(sh.kv@.dom(), self@.dom());
        if sh.kv@.len() < 0x1_0000_0000 {
            let (len, kk) = choose|len: int, kk: K|
                #![trigger chain_crowded(sh.kv@.dom(), self.seed(), kk, (len - 1) as usize)]
                MAX_TABLE_LEN / 2 < len <= MAX_TABLE_LEN && (kk == key || sh.kv@.dom().contains(kk)) && chain_crowded(
                    sh.kv@.dom(),
                    self.seed(),
                    kk,
                    (len - 1) as usize,
                );
            lemma_crowded_superset(sh.kv@.dom(), self@.dom(), self.seed(), kk, (len - 1) as usize);
            assert(chain_crowded(self@.dom(), self.hash_seed(), kk, (len - 1) as usize));
        }
    }

    /// The number of shards.
    pub closed spec fn shard_count(&self) -> nat {
        self.shards.len() as nat
    }

    /// Every shard passes its structural checks: sound buckets, as many occupied slots
    /// as entries, and a free list of distinct vacant arena positions.
    pub closed spec fn sound(&self) -> bool {
        forall|i: int| 0 <= i < self.shards.len() ==> #[trigger] self.shards@[i].sound()
    }

    /// A consistent map passes its structural checks.
    pub proof fn lemma_wf_sound(&self)
        requires
            self.wf(),
        ensures
            self.sound(),
    {
        assert forall|i: int| 0 <= i < self.shards.len() implies #[trigger] self.shards@[i].sound() by {
            self.shards@[i].lemma_sound(self.seed());
        }
    }

    /// Runs the structural checks over every shard's buckets and free list, returning
    /// whether they all pass.
    pub fn check_invariants(&self) -> (ok: bool)
        ensures
            ok == self.sound(),
            self.wf() ==> ok,
    {
        proof {
            if self.wf() {
                self.lemma_wf_sound();
            }
        }
        let mut i: usize = 0;
        while i < self.shards.len()
            invariant
                i <= self.shards.len(),
                self.wf() ==> self.sound(),
                forall|j: int| 0 <= j < i ==> #[trigger] self.shards@[j].sound(),
            decreases self.shards.len() - i,
        {
            if !self.shards[i].check() {
                return false;
            }
            i = i + 1;
        }
        true
    }


    /// Creates a map with `num_shards` empty shards.
    pub fn new(num_shards: usize) -> (m: Self)
        ensures
            m.wf(),
            m@ == Map::<K, V>::empty(),
            m.shard_count() == num_shards,
            forall|k: K| num_shards > 0 ==> #[trigger] m.has_room_for(k),
    {
        Self::with_capacity(num_shards, 0)
    }

    /// Creates a map with `num_shards` shards, each pre-sized for its share of about
    /// `capacity_hint` entries in total.
    pub fn with_capacity(num_shards: usize, capacity_hint: usize) -> (m: Self)
        requires
            capacity_hint / (if num_shards == 0 { 1usize } else { num_shards }) <= MAX_TABLE_LEN,
        ensures
            m.wf(),
            m@ == Map::<K, V>::empty(),
            m.shard_count() == num_shards,
            forall|k: K| num_shards > 0 ==> #[trigger] m.has_room_for(k),
    {
        let divisor = if num_shards == 0 {
            1
        } else {
            num_shards
        };
        let per_shard = match capacity_hint.checked_div(divisor) {
            Some(q) => q,
            None => 0,
        };
        let effective_slots_per_bucket = SLOTS_PER_BUCKET * GROW_THRESHOLD_NUM / GROW_THRESHOLD_DEN;
        let rounded_up = per_shard / effective_slots_per_bucket + if per_shard % effective_slots_per_bucket
            != 0 {
            1
        } else {
            0
        };
        let buckets_hint = if rounded_up < 1 {
            1
        } else {
            rounded_up
        };
        assert(effective_slots_per_bucket == 4);
        assert(per_shard <= MAX_TABLE_LEN);
        assert(buckets_hint <= MAX_TABLE_LEN / 2);
        let table_len = next_power_of_two(buckets_hint);
        let build_hasher = ShardBuildHasher::random();
        let mut shards: Vec<Inner<K, V>> = Vec::with_capacity(num_shards);
        let mut i: usize = 0;
        while i < num_shards
            invariant
                i <= num_shards,
                shards.len() == i,
                table_len <= MAX_TABLE_LEN / 2,
                forall|j: int| 0 <= j < i ==> #[trigger] shards@[j].wf(build_hasher.seed),
                forall|j: int| 0 <= j < i ==> #[trigger] shards@[j].tight(),
                forall|j: int| 0 <= j < i ==> #[trigger] shards@[j].kv@ == Map::<K, V>::empty(),
                forall|j: int, k: K| 0 <= j < i ==> #[trigger] shards@[j].has_room_for(build_hasher.seed, k),
            decreases num_shards - i,
        {
            let inner = Inner::new(table_len, per_shard);
            assert(inner.wf(build_hasher.seed));
            shards.push(inner);
            i = i + 1;
        }
        let m = RwShardedDlhtMap { shards, build_hasher, all: Ghost(Map::empty()) };
        proof {
            assert forall|j: int| 0 <= j <= m.shards.len() implies held_upto(m.shards@, j) == 0 by {
                lemma_held_zero(m.shards@, j);
            }
            assert forall|k: K| #[trigger]
                m.all@.contains_key(k) <==> (m.shards.len() > 0
                    && m.shards@[m.shard_of(k)].kv@.contains_key(k)) by {
                if m.shards.len() > 0 {
                    lemma_reduce_bound(key_digest(m.seed(), k), m.shards.len());
                }
            }
            assert forall|k: K| num_shards > 0 implies #[trigger] m.has_room_for(k) by {
                lemma_reduce_bound(key_digest(m.seed(), k), m.shards.len());
                assert(m.shards@[m.shard_of(k)].has_room_for(m.seed(), k));
            }
        }
        m
    }

    /// The number of shards.
    pub fn num_shards(&self) -> (r: usize)
        ensures
            r == self.shard_count(),
    {
        self.shards.len()
    }

    /// The total number of entries, visiting every shard.
    pub fn len(&self) -> (r: usize)
        requires
            self.wf(),
        ensures
            r == self@.len(),
    {
        let mut total: usize = 0;
        let mut i: usize = 0;
        while i < self.shards.len()
            invariant
                self.wf(),
                i <= self.shards.len(),
                total == held_upto(self.shards@, i as int),
            decreases self.shards.len() - i,
        {
            proof {
                lemma_held_monotone(self.shards@, i + 1, self.shards.len() as int);
                assert(self.shards@[i as int].wf(self.seed()));
            }
            total = total + self.shards[i].len(Ghost(self.build_hasher.seed));
            i = i + 1;
        }
        total
    }

    /// Whether no entry is held, visiting every shard.
    pub fn is_empty(&self) -> (r: bool)
        requires
            self.wf(),
        ensures
            r == (self@.len() == 0),
    {
        let mut i: usize = 0;
        while i < self.shards.len()
            invariant
                self.wf(),
                i <= self.shards.len(),
                forall|j: int| 0 <= j < i ==> #[trigger] self.shards@[j].kv@.len() == 0,
            decreases self.shards.len() - i,
        {
            assert(self.shards@[i as int].wf(self.seed()));
            if self.shards[i].len(Ghost(self.build_hasher.seed)) != 0 {
                proof {
                    lemma_held_monotone(self.shards@, i + 1, self.shards.len() as int);
                }
                return false;
            }
            i = i + 1;
        }
        proof {
            lemma_held_zero(self.shards@, self.shards.len() as int);
        }
        true
    }

    /// Inserts a key-value pair, returning the value previously held for `key`. Grows
    /// the key's shard table when its occupancy would exceed three fifths. Hands the
    /// pair back, leaving the map unchanged, when the shard's arena has exhausted its
    /// 32-bit index range or its table cannot grow any further, which no map holding
    /// fewer than seven pairs reaches.
    pub fn try_insert(&mut self, key: K, value: V) -> (r: Result<Option<V>, (K, V)>)
        requires
            old(self).wf(),
            old(self).shard_count() > 0,
            old(self)@.len() < usize::MAX,
        ensures
            final(self).wf(),
            final(self).shard_count() == old(self).shard_count(),
            old(self)@.len() < 7 ==> r is Ok,
            match r {
                Ok(Some(v)) => {
                    &&& old(self)@.contains_key(key)
                    &&& v == old(self)@[key]
                    &&& final(self)@ == old(self)@.insert(key, value)
                },
                Ok(None) => {
                    &&& !old(self)@.contains_key(key)
                    &&& final(self)@ == old(self)@.insert(key, value)
                },
                Err((k, v)) => {
                    &&& k == key
                    &&& v == value
                    &&& !old(self)@.contains_key(key)
                    &&& !old(self).has_room_for(key)
                    &&& final(self).at_limit(key)
                    &&& final(self)@ == old(self)@
                    &&& (old(self)@.len() >= 0x1_0000_0000 || saturated(old(self)@.dom(), old(self).hash_seed(), key))
                },
            },
    {
        let digest = self.hash(&key);
        let shard_idx = self.shard_index(digest).expect("map must have at least one shard");
        let build_hasher = self.build_hasher;
        let ghost pre = *self;
        let ghost gk = key;
        let ghost gv = value;
        let ghost j = shard_idx as int;
        proof {
            assert(self.shards@[j].wf(self.seed()));
        }
        let r = self.shards[shard_idx].try_insert(key, value, digest, &build_hasher, Ghost(build_hasher.seed));
        let ghost new_j = self.shards@[j];
        proof {
            assert(self.shards@ == pre.shards@.update(j, new_j));
            lemma_held_update(pre.shards@, j, new_j, pre.shards.len() as int);
            pre.shards@[j].lemma_finite(pre.seed());
        }
        match r {
            Ok(old_value) => {
                self.all = Ghost(self.all@.insert(gk, gv));
                proof {
                    assert(self.shard_of(gk) == j);
                    if pre.all@.contains_key(gk) {
                        assert(self.all@.dom() =~= pre.all@.dom());
                    } else {
                        assert(!pre.shards@[j].kv@.contains_key(gk));
                        assert(self.all@.dom() =~= pre.all@.dom().insert(gk));
                        assert(new_j.kv@.dom() =~= pre.shards@[j].kv@.dom().insert(gk));
                    }
                    self.lemma_wf_after_update(pre, j);
                }
                Ok(old_value)
            },
            Err(pair) => {
                proof {
                    assert(new_j.kv@ == pre.shards@[j].kv@);
                    self.lemma_wf_after_update(pre, j);
                    assert(self@ =~= pre@);
                    if pre@.len() < 7 {
                        self.lemma_sparse_no_limit(gk);
                    }
                    self.lemma_limit_saturated(gk);
                }
                Err(pair)
            },
        }
    }

    /// Inserts a key-value pair, returning the value previously held for `key`.
    ///
    /// At the table's limits (see [`RwShardedDlhtMap::try_insert`]) the pair is dropped
    /// and the map left unchanged.
    pub fn insert(&mut self, key: K, value: V) -> (r: Option<V>)
        requires
            old(self).wf(),
            old(self).shard_count() > 0,
            old(self)@.len() < usize::MAX,
        ensures
            final(self).wf(),
            final(self).shard_count() == old(self).shard_count(),
            old(self)@.contains_key(key) ==> r == Some(old(self)@[key]) && final(self)@ == old(
                self,
            )@.insert(key, value),
            !old(self)@.contains_key(key) ==> r is None && (final(self)@ == old(self)@.insert(key, value)
                || (final(self)@ == old(self)@ && !old(self).has_room_for(key) && final(self).at_limit(key))),
            !old(self)@.contains_key(key) && old(self).has_room_for(key) ==> final(self)@ == old(
                self,
            )@.insert(key, value),
            old(self)@.len() < 7 ==> final(self)@ == old(self)@.insert(key, value),
            !old(self)@.contains_key(key) && final(self)@ != old(self)@.insert(key, value) ==> (old(self)@.len()
                >= 0x1_0000_0000 || saturated(old(self)@.dom(), old(self).hash_seed(), key)),
    {
        match self.try_insert(key, value) {
            Ok(r) => r,
            Err(_) => None,
        }
    }

    /// A clone of the value held for `key`.
    pub fn get_cloned(&self, key: &K) -> (r: Option<V>)
        where
            V: Clone,
        requires
            self.wf(),
        ensures
            match r {
                Some(v) => self@.contains_key(*key) && cloned(self@[*key], v),
                None => !self@.contains_key(*key),
            },
    {
        match self.get(key) {
            Some(v) => Some(v.clone()),
            None => None,
        }
    }

    /// A reference to the value held for `key`.
    pub fn get(&self, key: &K) -> (r: Option<&V>)
        requires
            self.wf(),
        ensures
            match r {
                Some(v) => self@.contains_key(*key) && *v == self@[*key],
                None => !self@.contains_key(*key),
            },
    {
        let digest = self.hash(key);
        let shard_idx = match self.shard_index(digest) {
            Some(i) => i,
            None => return None,
        };
        proof {
            assert(self.shards@[shard_idx as int].wf(self.seed()));
            assert(self.all@.contains_key(*key) == self.shards@[shard_idx as int].kv@.contains_key(*key));
            if self.all@.contains_key(*key) {
                assert(self.all@[*key] == self.shards@[shard_idx as int].kv@[*key]);
            }
        }
        self.shards[shard_idx].get_value(key, digest, Ghost(self.build_hasher.seed))
    }

    /// Removes the entry for `key`, returning its value. The slot and the arena
    /// position become reusable at once.
    pub fn remove(&mut self, key: &K) -> (r: Option<V>)
        requires
            old(self).wf(),
        ensures
            final(self).wf(),
            final(self).shard_count() == old(self).shard_count(),
            final(self)@ == old(self)@.remove(*key),
            r == (if old(self)@.contains_key(*key) {
                Some(old(self)@[*key])
            } else {
                None
            }),
    {
        let digest = self.hash(key);
        let shard_idx = match self.shard_index(digest) {
            Some(i) => i,
            None => {
                proof {
                    assert(self.all@.remove(*key) =~= self.all@);
                }
                return None;
            },
        };
        let build_hasher = self.build_hasher;
        let ghost pre = *self;
        let ghost j = shard_idx as int;
        proof {
            assert(self.shards@[j].wf(self.seed()));
        }
        let r = self.shards[shard_idx].remove(key, digest, Ghost(build_hasher.seed));
        let ghost new_j = self.shards@[j];
        self.all = Ghost(self.all@.remove(*key));
        proof {
            assert(self.shards@ == pre.shards@.update(j, new_j));
            lemma_held_update(pre.shards@, j, new_j, pre.shards.len() as int);
            pre.shards@[j].lemma_finite(pre.seed());
            if pre.all@.contains_key(*key) {
                assert(self.all@.dom() =~= pre.all@.dom().remove(*key));
                assert(new_j.kv@.dom() =~= pre.shards@[j].kv@.dom().remove(*key));
            } else {
                assert(self.all@.dom() =~= pre.all@.dom());
                assert(new_j.kv@ =~= pre.shards@[j].kv@);
            }
            self.lemma_wf_after_update(pre, j);
        }
        r
    }

    /// Whether the map holds an entry for `key`.
    pub fn contains_key(&self, key: &K) -> (r: bool)
        requires
            self.wf(),
        ensures
            r == self@.contains_key(*key),
    {
        let digest = self.hash(key);
        let shard_idx = match self.shard_index(digest) {
            Some(i) => i,
            None => return false,
        };
        proof {
            assert(self.shards@[shard_idx as int].wf(self.seed()));
        }
        self.shards[shard_idx].contains(key, digest, Ghost(self.build_hasher.seed))
    }

    /// The map stays consistent when shard `j` changes into a consistent shard whose
    /// pairs differ from the old ones exactly as the map's pairs do.
    proof fn lemma_wf_after_update(&self, pre: Self, j: int)
        requires
            pre.wf(),
            0 <= j < pre.shards.len(),
            self.shards@ == pre.shards@.update(j, self.shards@[j]),
            self.build_hasher == pre.build_hasher,
            self.shards@[j].wf(self.seed()),
            self.shards@[j].tight(),
            forall|k: K| #[trigger] self.shards@[j].kv@.contains_key(k) ==> self.shard_of(k) == j,
            forall|k: K| self.shard_of(k) == j ==> (#[trigger] self.all@.contains_key(k) <==> self.shards@[j].kv@.contains_key(k)),
            forall|k: K| self.shard_of(k) == j && #[trigger] self.all@.contains_key(k) ==> self.all@[k] == self.shards@[j].kv@[k],
            forall|k: K| self.shard_of(k) != j ==> (#[trigger] self.all@.contains_key(k) == pre.all@.contains_key(k)),
            forall|k: K| self.shard_of(k) != j && #[trigger] self.all@.contains_key(k) ==> self.all@[k] == pre.all@[k],
            self.all@.dom().finite(),
            self.all@.len() == pre.all@.len() - pre.shards@[j].kv@.len() + self.shards@[j].kv@.len(),
            self.all@.len() <= usize::MAX,
        ensures
            self.wf(),
    {
        lemma_held_update(pre.shards@, j, self.shards@[j], pre.shards.len() as int);
        assert forall|i: int| 0 <= i < self.shards.len() implies #[trigger] self.shards@[i].wf(self.seed()) by {
            if i != j {
                assert(pre.shards@[i].wf(pre.seed()));
            }
        }
        assert forall|i: int| 0 <= i < self.shards.len() implies #[trigger] self.shards@[i].tight() by {
            if i != j {
                assert(pre.shards@[i].tight());
            }
        }
        assert forall|i: int, k: K|
            0 <= i < self.shards.len() && #[trigger] self.shards@[i].kv@.contains_key(k) implies self.shard_of(k) == i by {
            if i != j {
                assert(pre.shards@[i].kv@.contains_key(k));
            }
        }
        assert forall|k: K| #[trigger]
            self.all@.contains_key(k) <==> (self.shards.len() > 0
                && self.shards@[self.shard_of(k)].kv@.contains_key(k)) by {
            lemma_reduce_bound(key_digest(self.seed(), k), self.shards.len());
        }
        assert forall|k: K| #[trigger]
            self.all@.contains_key(k) implies self.all@[k] == self.shards@[self.shard_of(k)].kv@[k] by {
            lemma_reduce_bound(key_digest(self.seed(), k), self.shards.len());
        }
    }

    fn hash(&self, key: &K) -> (d: u64)
        ensures
            d == key_digest(self.seed(), *key),
    {
        self.build_hasher.hash_word(key.word())
    }

    fn shard_index(&self, digest: u64) -> (r: Option<usize>)
        ensures
            self.shards.len() == 0 ==> r is None,
            self.shards.len() > 0 ==> r == Some(reduce_spec(digest, self.shards.len())),
            r matches Some(i) ==> i < self.shards.len(),
    {
        let n = self.shards.len();
        if n == 0 {
            return None;
        }
        Some(reduce_range(digest, n))
    }
}

impl<K: ShardKey, V> Default for RwShardedDlhtMap<K, V> {
    /// A map with thirty-two empty shards.
    fn default() -> (m: Self)
        ensures
            m.wf(),
            m@ == Map::<K, V>::empty(),
            m.shard_count() == 32,
            forall|k: K| #[trigger] m.has_room_for(k),
    {
        Self::new(32)
    }
}

} // verus!
