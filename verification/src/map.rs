//! A hash map sharded by key hash: each shard is a standard [`HashMap`], and a key's
//! digest selects its shard, so operations on keys of different shards touch disjoint
//! tables.
use vstd::prelude::*;
use vstd::pervasive::cloned;
use std::collections::HashMap;
use crate::hashing::{ShardBuildHasher, ShardKey, digest_spec, reduce_range, reduce_spec, lemma_reduce_bound};
use crate::{is_power_of_two, is_pow2_usize, lemma_mask_is_mod};

verus! {

broadcast use vstd::std_specs::hash::group_hash_axioms;

/// The shard of a digest among `n` shards: masking for a power of two, multiply-shift
/// range reduction otherwise.
pub open spec fn shard_spec(digest: u64, n: usize) -> usize {
    if is_pow2_usize(n) {
        ((digest as usize) as int % n as int) as usize
    } else {
        reduce_spec(digest, n)
    }
}

/// The number of pairs held by the first `i` shards.
pub(crate) open spec fn pairs_upto<K, V>(shards: Seq<HashMap<K, V>>, i: int) -> nat
    decreases i,
{
    if i <= 0 {
        0
    } else {
        pairs_upto(shards, i - 1) + shards[i - 1]@.len()
    }
}

pub(crate) proof fn lemma_pairs_update<K, V>(shards: Seq<HashMap<K, V>>, j: int, x: HashMap<K, V>, i: int)
    requires
        0 <= j < shards.len(),
        0 <= i <= shards.len(),
    ensures
        pairs_upto(shards.update(j, x), i) == if j < i {
            pairs_upto(shards, i) - shards[j]@.len() + x@.len()
        } else {
            pairs_upto(shards, i) as int
        },
    decreases i,
{
    if i > 0 {
        lemma_pairs_update(shards, j, x, i - 1);
    }
}

pub(crate) proof fn lemma_pairs_monotone<K, V>(shards: Seq<HashMap<K, V>>, i: int, k: int)
    requires
        0 <= i <= k <= shards.len(),
    ensures
        pairs_upto(shards, i) <= pairs_upto(shards, k),
    decreases k - i,
{
    if i < k {
        lemma_pairs_monotone(shards, i, k - 1);
    }
}

pub(crate) proof fn lemma_pairs_zero<K, V>(shards: Seq<HashMap<K, V>>, i: int)
    requires
        0 <= i <= shards.len(),
    ensures
        pairs_upto(shards, i) == 0 <==> forall|j: int| 0 <= j < i ==> #[trigger] shards[j]@.len() == 0,
    decreases i,
{
    if i > 0 {
        lemma_pairs_zero(shards, i - 1);
    }
}

/// `HashMap::get_mut`: a mutable reference to the value held for `k`, if any; what the
/// reference finally holds is what the map holds for `k` afterwards, and nothing else
/// changes.
#[verifier::external_body]
fn hash_map_get_mut<'a, K: Eq + std::hash::Hash, V>(m: &'a mut HashMap<K, V>, k: &K) -> (r: Option<&'a mut V>)
    requires
        vstd::std_specs::hash::obeys_key_model::<K>(),
    ensures
        match r {
            Some(v) => {
                &&& old(m)@.contains_key(*k)
                &&& *v == old(m)@[*k]
                &&& final(m)@ == old(m)@.insert(*k, *final(v))
            },
            None => !old(m)@.contains_key(*k) && final(m)@ == old(m)@,
        },
{
    m.get_mut(k)
}

/// A hash map sharded by key hash.
///
/// Keys are hashed once with the map's seeded hasher to pick the shard; each shard is
/// a standard [`HashMap`].
///
/// [`RwShardedHashMap::len`] and [`RwShardedHashMap::is_empty`] visit every shard.
#[verifier::reject_recursive_types(K)]
pub struct RwShardedHashMap<K, V> {
    shards: Vec<HashMap<K, V>>,
    build_hasher: ShardBuildHasher,
    keys: Ghost<Set<K>>,
}

impl<K: ShardKey, V> View for RwShardedHashMap<K, V> {
    type V = Map<K, V>;

    closed spec fn view(&self) -> Map<K, V> {
        Map::new(|k: K| self.keys@.contains(k), |k: K| self.shards@[self.shard_of(k)]@[k])
    }
}

impl<K: ShardKey, V> RwShardedHashMap<K, V> {
    /// The shard that holds `k`.
    spec fn shard_of(&self, k: K) -> int {
        shard_spec(digest_spec(self.build_hasher.seed, k.key_word()), self.shards.len()) as int
    }

    /// Every shard holds exactly the keys routed to it, and together they hold exactly
    /// the map's keys.
    pub closed spec fn wf(&self) -> bool {
        &&& forall|i: int, k: K|
            0 <= i < self.shards.len() && #[trigger] self.shards@[i]@.contains_key(k) ==> self.shard_of(k) == i
        &&& forall|k: K| #[trigger]
            self.keys@.contains(k) <==> (self.shards.len() > 0
                && self.shards@[self.shard_of(k)]@.contains_key(k))
        &&& self.keys@.finite()
        &&& self.keys@.len() == pairs_upto(self.shards@, self.shards.len() as int)
        &&& self.keys@.len() <= usize::MAX
    }

    proof fn lemma_view_len(&self)
        requires
            self.wf(),
        ensures
            self@.dom() == self.keys@,
            self@.len() == self.keys@.len(),
    {
        assert(self@.dom() =~= self.keys@);
    }

    /// A consistent map holds finitely many entries, and none without shards.
    pub proof fn lemma_view_finite(&self)
        requires
            self.wf(),
        ensures
            self@.dom().finite(),
            self.shard_count() == 0 ==> self@ == Map::<K, V>::empty(),
    {
        self.lemma_view_len();
        assert(self.shard_count() == 0 ==> self@ =~= Map::empty());
    }

    /// The number of shards.
    pub closed spec fn shard_count(&self) -> nat {
        self.shards.len() as nat
    }

    proof fn lemma_shard_bound(&self, k: K)
        requires
            self.shards.len() > 0,
        ensures
            0 <= self.shard_of(k) < self.shards.len(),
    {
        lemma_reduce_bound(digest_spec(self.build_hasher.seed, k.key_word()), self.shards.len());
    }

    /// Creates a map with `num_shards` empty shards.
    pub fn new(num_shards: usize) -> (m: Self)
        ensures
            m.wf(),
            m@ == Map::<K, V>::empty(),
            m.shard_count() == num_shards,
    {
        Self::with_capacity(num_shards, 0)
    }

    /// Creates a map with `num_shards` shards, each pre-sized for its share of about
    /// `capacity_hint` entries in total.
    pub fn with_capacity(num_shards: usize, capacity_hint: usize) -> (m: Self)
        ensures
            m.wf(),
            m@ == Map::<K, V>::empty(),
            m.shard_count() == num_shards,
    {
        let per_shard = match capacity_hint.checked_div(num_shards) {
            Some(q) => q,
            None => 0,
        };
        let build_hasher = ShardBuildHasher::random();
        let mut shards: Vec<HashMap<K, V>> = Vec::with_capacity(num_shards);
        let mut i: usize = 0;
        while i < num_shards
            invariant
                i <= num_shards,
                shards.len() == i,
                forall|j: int| 0 <= j < i ==> #[trigger] shards@[j]@ == Map::<K, V>::empty(),
            decreases num_shards - i,
        {
            shards.push(HashMap::with_capacity(per_shard));
            i = i + 1;
        }
        let m = RwShardedHashMap { shards, build_hasher, keys: Ghost(Set::empty()) };
        proof {
            lemma_pairs_zero(m.shards@, m.shards.len() as int);
            assert forall|k: K| #[trigger]
                m.keys@.contains(k) <==> (m.shards.len() > 0 && m.shards@[m.shard_of(k)]@.contains_key(k)) by {
                if m.shards.len() > 0 {
                    m.lemma_shard_bound(k);
                }
            }
            assert(m@ =~= Map::<K, V>::empty());
        }
        m
    }

    /// The number of shards.
    pub fn num_shards(&self) -> (r: usize)
        ensures
            r == self.shard_count(),
    {
        self.shards.len()
    }

    /// The total number of entries, visiting every shard.
    pub fn len(&self) -> (r: usize)
        requires
            self.wf(),
        ensures
            r == self@.len(),
    {
        proof {
            K::lemma_key_model();
            self.lemma_view_len();
        }
        let mut total: usize = 0;
        let mut i: usize = 0;
        while i < self.shards.len()
            invariant
                self.wf(),
                vstd::std_specs::hash::obeys_key_model::<K>(),
                i <= self.shards.len(),
                total == pairs_upto(self.shards@, i as int),
            decreases self.shards.len() - i,
        {
            proof {
                lemma_pairs_monotone(self.shards@, i + 1, self.shards.len() as int);
            }
            total = total + self.shards[i].len();
            i = i + 1;
        }
        total
    }

    /// Whether no entry is held, visiting every shard.
    pub fn is_empty(&self) -> (r: bool)
        requires
            self.wf(),
        ensures
            r == (self@.len() == 0),
    {
        proof {
            self.lemma_view_len();
        }
        let mut i: usize = 0;
        while i < self.shards.len()
            invariant
                self.wf(),
                i <= self.shards.len(),
                forall|j: int| 0 <= j < i ==> #[trigger] self.shards@[j]@.len() == 0,
            decreases self.shards.len() - i,
        {
            if !self.shards[i].is_empty() {
                proof {
                    self.lemma_view_len();
                    lemma_pairs_monotone(self.shards@, i + 1, self.shards.len() as int);
                    assert(self.shards@[i as int]@.dom().len() != 0) by {
                        if self.shards@[i as int]@.dom().len() == 0 {
                            self.shards@[i as int]@.dom().lemma_len0_is_empty();
                            assert(self.shards@[i as int]@ =~= Map::empty());
                        }
                    }
                }
                return false;
            }
            i = i + 1;
        }
        proof {
            lemma_pairs_zero(self.shards@, self.shards.len() as int);
        }
        true
    }

    /// Inserts a key-value pair, returning the value previously held for `key`.
    pub fn insert(&mut self, key: K, value: V) -> (r: Option<V>)
        requires
            old(self).wf(),
            old(self).shard_count() > 0,
            old(self)@.len() < usize::MAX,
        ensures
            final(self).wf(),
            final(self).shard_count() == old(self).shard_count(),
            final(self)@ == old(self)@.insert(key, value),
            r == (if old(self)@.contains_key(key) {
                Some(old(self)@[key])
            } else {
                None
            }),
    {
        proof {
            K::lemma_key_model();
        }
        let idx = self.shard_index(&key).expect("map must have at least one shard");
        let ghost pre = *self;
        let ghost j = idx as int;
        let ghost gk = key;
        let ghost gv = value;
        proof {
            pre.lemma_view_len();
        }
        let r = self.shards[idx].insert(key, value);
        let ghost new_j = self.shards@[j];
        self.keys = Ghost(self.keys@.insert(gk));
        proof {
            assert(self.shards@ == pre.shards@.update(j, new_j));
            assert(pre.keys@.contains(gk) == pre.shards@[j]@.contains_key(gk));
            if pre.keys@.contains(gk) {
                assert(self.keys@ =~= pre.keys@);
                assert(new_j@.dom() =~= pre.shards@[j]@.dom());
            } else {
                assert(new_j@.dom() =~= pre.shards@[j]@.dom().insert(gk));
            }
            self.lemma_wf_after_update(pre, j);
            assert forall|k: K| #[trigger] self@.contains_key(k) implies self@[k] == pre@.insert(gk, gv)[k] by {
                self.lemma_shard_bound(k);
            }
            assert(self@ =~= pre@.insert(gk, gv));
        }
        r
    }

    /// A clone of the value held for `key`.
    pub fn get_cloned(&self, key: &K) -> (r: Option<V>)
        where
            V: Clone,
        requires
            self.wf(),
        ensures
            match r {
                Some(v) => self@.contains_key(*key) && cloned(self@[*key], v),
                None => !self@.contains_key(*key),
            },
    {
        match self.get(key) {
            Some(v) => Some(v.clone()),
            None => None,
        }
    }

    /// A reference to the value held for `key`.
    pub fn get(&self, key: &K) -> (r: Option<&V>)
        requires
            self.wf(),
        ensures
            match r {
                Some(v) => self@.contains_key(*key) && *v == self@[*key],
                None => !self@.contains_key(*key),
            },
    {
        proof {
            K::lemma_key_model();
        }
        let idx = match self.shard_index(key) {
            Some(i) => i,
            None => return None,
        };
        proof {
            assert(self.keys@.contains(*key) == self.shards@[idx as int]@.contains_key(*key));
        }
        self.shards[idx].get(key)
    }

    /// A mutable reference to the value held for `key`: what it finally holds is what
    /// the map holds for `key` afterwards.
    pub fn get_mut(&mut self, key: &K) -> (r: Option<&mut V>)
        requires
            old(self).wf(),
        ensures
            final(self).wf(),
            final(self).shard_count() == old(self).shard_count(),
            match r {
                Some(v) => {
                    &&& old(self)@.contains_key(*key)
                    &&& *v == old(self)@[*key]
                    &&& final(self)@ == old(self)@.insert(*key, *final(v))
                },
                None => !old(self)@.contains_key(*key) && final(self)@ == old(self)@,
            },
    {
        proof {
            K::lemma_key_model();
        }
        let idx = match self.shard_index(key) {
            Some(i) => i,
            None => return None,
        };
        let ghost pre = *self;
        let ghost j = idx as int;
        proof {
            assert(self.keys@.contains(*key) == self.shards@[j]@.contains_key(*key));
        }
        proof {
            Self::lemma_value_update(pre, j, *key);
        }
        let shard = &mut self.shards[idx];
        hash_map_get_mut(shard, key)
    }

    /// `post` differs from `pre` only in the values that shard `j` holds for `key`.
    spec fn value_step(pre: Self, post: Self, j: int, key: K) -> bool {
        &&& post.shards@ == pre.shards@.update(j, post.shards@[j])
        &&& post.build_hasher == pre.build_hasher
        &&& post.keys == pre.keys
        &&& (post.shards@[j]@ == pre.shards@[j]@ || (pre.shards@[j]@.contains_key(key)
            && post.shards@[j]@ == pre.shards@[j]@.insert(key, post.shards@[j]@[key])))
    }

    /// Changing only the value that shard `j` holds for a key it already holds keeps the
    /// map consistent and changes its view in the same way.
    proof fn lemma_value_update(pre: Self, j: int, key: K)
        requires
            pre.wf(),
            0 <= j < pre.shards.len(),
            j == pre.shard_of(key),
        ensures
            forall|post: Self|
                #![trigger post.wf()]
                #![trigger post.view()]
                Self::value_step(pre, post, j, key) ==> {
                    &&& post.wf()
                    &&& post.shards@[j]@ == pre.shards@[j]@ ==> post@ == pre@
                    &&& post.shards@[j]@ != pre.shards@[j]@ ==> post@ == pre@.insert(key, post.shards@[j]@[key])
                },
    {
        assert forall|post: Self|
            #![trigger post.wf()]
            #![trigger post.view()]
            Self::value_step(pre, post, j, key) implies {
                &&& post.wf()
                &&& post.shards@[j]@ == pre.shards@[j]@ ==> post@ == pre@
                &&& post.shards@[j]@ != pre.shards@[j]@ ==> post@ == pre@.insert(key, post.shards@[j]@[key])
            } by {
            assert(post.shards@[j]@.dom() =~= pre.shards@[j]@.dom());
            post.lemma_wf_after_update(pre, j);
            if post.shards@[j]@ == pre.shards@[j]@ {
                assert forall|k: K| #[trigger] post@.contains_key(k) implies post@[k] == pre@[k] by {
                    post.lemma_shard_bound(k);
                }
                assert(post@ =~= pre@);
            } else {
                assert forall|k: K| #[trigger] post@.contains_key(k) implies post@[k] == pre@.insert(key, post.shards@[j]@[key])[k] by {
                    post.lemma_shard_bound(k);
                }
                assert(post@ =~= pre@.insert(key, post.shards@[j]@[key]));
            }
        }
    }

    /// Removes the entry for `key`, returning its value.
    pub fn remove(&mut self, key: &K) -> (r: Option<V>)
        requires
            old(self).wf(),
        ensures
            final(self).wf(),
            final(self).shard_count() == old(self).shard_count(),
            final(self)@ == old(self)@.remove(*key),
            r == (if old(self)@.contains_key(*key) {
                Some(old(self)@[*key])
            } else {
                None
            }),
    {
        proof {
            K::lemma_key_model();
        }
        let idx = match self.shard_index(key) {
            Some(i) => i,
            None => {
                proof {
                    assert(self@.remove(*key) =~= self@);
                }
                return None;
            },
        };
        let ghost pre = *self;
        let ghost j = idx as int;
        let r = self.shards[idx].remove(key);
        let ghost new_j = self.shards@[j];
        self.keys = Ghost(self.keys@.remove(*key));
        proof {
            assert(self.shards@ == pre.shards@.update(j, new_j));
            assert(pre.keys@.contains(*key) == pre.shards@[j]@.contains_key(*key));
            if pre.keys@.contains(*key) {
                assert(new_j@.dom() =~= pre.shards@[j]@.dom().remove(*key));
            } else {
                assert(self.keys@ =~= pre.keys@);
                assert(new_j@ =~= pre.shards@[j]@);
            }
            self.lemma_wf_after_update(pre, j);
            assert forall|k: K| #[trigger] self@.contains_key(k) implies self@[k] == pre@.remove(*key)[k] by {
                self.lemma_shard_bound(k);
            }
            assert(self@ =~= pre@.remove(*key));
        }
        r
    }

    /// Whether the map holds an entry for `key`.
    pub fn contains_key(&self, key: &K) -> (r: bool)
        requires
            self.wf(),
        ensures
            r == self@.contains_key(*key),
    {
        proof {
            K::lemma_key_model();
        }
        let idx = match self.shard_index(key) {
            Some(i) => i,
            None => return false,
        };
        proof {
            assert(self.keys@.contains(*key) == self.shards@[idx as int]@.contains_key(*key));
        }
        self.shards[idx].contains_key(key)
    }

    /// The map stays consistent when shard `j` changes in exactly the way the map's
    /// keys do.
    proof fn lemma_wf_after_update(&self, pre: Self, j: int)
        requires
            pre.wf(),
            0 <= j < pre.shards.len(),
            self.shards@ == pre.shards@.update(j, self.shards@[j]),
            self.build_hasher == pre.build_hasher,
            forall|k: K| #[trigger] self.shards@[j]@.contains_key(k) ==> self.shard_of(k) == j,
            forall|k: K| self.shard_of(k) == j ==> (#[trigger] self.keys@.contains(k) <==> self.shards@[j]@.contains_key(k)),
            forall|k: K| self.shard_of(k) != j ==> (#[trigger] self.keys@.contains(k) == pre.keys@.contains(k)),
            self.keys@.finite(),
            self.keys@.len() == pre.keys@.len() - pre.shards@[j]@.len() + self.shards@[j]@.len(),
            self.keys@.len() <= usize::MAX,
        ensures
            self.wf(),
    {
        lemma_pairs_update(pre.shards@, j, self.shards@[j], pre.shards.len() as int);
        assert forall|i: int, k: K|
            0 <= i < self.shards.len() && #[trigger] self.shards@[i]@.contains_key(k) implies self.shard_of(k) == i by {
            if i != j {
                assert(pre.shards@[i]@.contains_key(k));
            }
        }
        assert forall|k: K| #[trigger]
            self.keys@.contains(k) <==> (self.shards.len() > 0
                && self.shards@[self.shard_of(k)]@.contains_key(k)) by {
            self.lemma_shard_bound(k);
        }
    }

    /// The shard of `key`: masking by the shard count when it is a power of two,
    /// multiply-shift range reduction otherwise.
    fn shard_index(&self, key: &K) -> (r: Option<usize>)
        ensures
            self.shards.len() == 0 ==> r is None,
            self.shards.len() > 0 ==> r == Some(self.shard_of(*key) as usize),
            r matches Some(i) ==> i < self.shards.len(),
    {
        let n = self.shards.len();
        if n == 0 {
            return None;
        }
        let digest = self.build_hasher.hash_word(key.word());
        if is_power_of_two(n) {
            proof {
                lemma_mask_is_mod(digest as usize, n);
            }
            Some((digest as usize) & (n - 1))
        } else {
            Some(reduce_range(digest, n))
        }
    }
}

impl<K: ShardKey, V> Default for RwShardedHashMap<K, V> {
    /// A map with thirty-two empty shards.
    fn default() -> (m: Self)
        ensures
            m.wf(),
            m@ == Map::<K, V>::empty(),
            m.shard_count() == 32,
    {
        Self::new(32)
    }
}

} // verus!
