//! A slot map sharded into independent arenas.
//!
//! Keys are generated at insert time instead of hashed: each [`SlotKey`] pins the shard
//! together with a generational key of that shard's [`slotmap::SlotMap`] arena, so a
//! key stays valid until its value is removed and is detectably stale afterwards.
//! Inserts pick a shard with a round-robin ticket.
use vstd::prelude::*;
use slotmap::{DefaultKey, Key, KeyData, SlotMap};
use vstd::pervasive::cloned;
use vstd::string::StringExecFns;
use vstd::pervasive::VecAdditionalExecFns;
use vstd::arithmetic::div_mod::{lemma_fundamental_div_mod, lemma_fundamental_div_mod_converse};
use crate::{is_power_of_two, lemma_mask_is_mod, ticket_after, lemma_ticket_after_wrapping};

verus! {

/// One shard's [`SlotMap`] arena. Its values live beside it, so the arena holds `()`
/// and serves the keys: their generation, validity and reuse.
#[verifier::external_body]
pub struct SlotArena {
    arena: SlotMap<DefaultKey, ()>,
}

/// The live keys of a slot arena, each as the 64-bit value that `KeyData::as_ffi`
/// gives for it.
pub uninterp spec fn arena_keys(arena: SlotArena) -> Set<u64>;

/// The version of every slot of a slot arena, by slot index: odd while the slot holds a
/// value, even while it is vacant. Slot 0 is the arena's sentinel.
pub uninterp spec fn arena_versions(arena: SlotArena) -> Map<u32, u32>;

/// The slot index held in the low half of a key's 64-bit value.
pub open spec fn key_slot(k: u64) -> u32 {
    (k % 0x1_0000_0000) as u32
}

/// The slot version held in the high half of a key's 64-bit value.
pub open spec fn key_version(k: u64) -> u32 {
    (k / 0x1_0000_0000) as u32
}

/// Whether `k` has the shape of a key's 64-bit value: its upper half, the slot's
/// version, is odd.
pub open spec fn key_shaped(k: u64) -> bool {
    (k / 0x1_0000_0000) % 2 == 1
}

/// The most slots an arena may be asked to pre-allocate: each slot of a `()` arena
/// takes eight bytes, plus one sentinel slot.
pub open spec fn arena_capacity_limit() -> int {
    isize::MAX as int / 8 - 1
}

/// `SlotMap::with_capacity`: an empty arena.
#[verifier::external_body]
fn arena_with_capacity(capacity: usize) -> (a: SlotArena)
    requires
        capacity <= arena_capacity_limit(),
    ensures
        arena_keys(a) == Set::<u64>::empty(),
        arena_versions(a) == Map::empty().insert(0u32, 0u32),
{
    SlotArena { arena: SlotMap::with_capacity(capacity) }
}

/// `SlotMap::insert`: a fresh key, not live before and live afterwards, alongside the
/// keys that were live. The key names either a vacant slot, whose even version goes up
/// by one, or, only while no slot past the sentinel is vacant, a new slot at the end of
/// the arena at version one: every vacated slot sits on the arena's free list. It
/// panics only once the arena holds `u32::MAX - 1` keys.
#[verifier::external_body]
fn arena_insert(a: &mut SlotArena) -> (k: u64)
    requires
        arena_keys(*old(a)).finite(),
        arena_keys(*old(a)).len() < u32::MAX - 1,
    ensures
        key_shaped(k),
        key_slot(k) >= 1,
        (exists|i: u32| 1 <= i && #[trigger] arena_versions(*old(a)).contains_key(i) && arena_versions(*old(a))[i] % 2
            == 0) ==> arena_versions(*old(a)).contains_key(key_slot(k)),
        !arena_versions(*old(a)).contains_key(key_slot(k)) ==> key_slot(k) == arena_versions(*old(a)).len(),
        !arena_keys(*old(a)).contains(k),
        arena_keys(*final(a)) == arena_keys(*old(a)).insert(k),
        arena_versions(*old(a)).contains_key(key_slot(k)) ==> arena_versions(*old(a))[key_slot(k)] % 2 == 0
            && key_version(k) == arena_versions(*old(a))[key_slot(k)] + 1,
        !arena_versions(*old(a)).contains_key(key_slot(k)) ==> key_version(k) == 1,
        arena_versions(*final(a)) == arena_versions(*old(a)).insert(key_slot(k), key_version(k)),
{
    a.arena.insert(()).data().as_ffi()
}

/// `SlotMap::contains_key` on the key whose 64-bit value is `k`: whether it is live.
#[verifier::external_body]
fn arena_contains(a: &SlotArena, k: u64) -> (r: bool)
    requires
        key_shaped(k),
    ensures
        r == arena_keys(*a).contains(k),
{
    a.arena.contains_key(DefaultKey::from(KeyData::from_ffi(k)))
}

/// `SlotMap::remove` on the key whose 64-bit value is `k`: `Some` exactly when it was
/// live, and it is not live afterwards; its slot's version then goes up by one,
/// wrapping around.
#[verifier::external_body]
fn arena_remove(a: &mut SlotArena, k: u64) -> (r: Option<()>)
    requires
        key_shaped(k),
    ensures
        r is Some == arena_keys(*old(a)).contains(k),
        arena_keys(*final(a)) == arena_keys(*old(a)).remove(k),
        r is Some ==> arena_versions(*old(a)).contains_key(key_slot(k))
            && arena_versions(*old(a))[key_slot(k)] == key_version(k)
            && arena_versions(*final(a)) == arena_versions(*old(a)).insert(
            key_slot(k),
            ((key_version(k) + 1) % 0x1_0000_0000) as u32,
        ),
        r is None ==> arena_versions(*final(a)) == arena_versions(*old(a)),
{
    a.arena.remove(DefaultKey::from(KeyData::from_ffi(k)))
}

/// The `Debug` text slotmap gives the arena key whose 64-bit value is `k`.
#[verifier::external_body]
fn arena_key_text(k: u64) -> (s: String) {
    format!("{:?}", DefaultKey::from(KeyData::from_ffi(k)))
}

/// `SlotMap::len`: the number of live keys.
#[verifier::external_body]
fn arena_len(a: &SlotArena) -> (r: usize)
    ensures
        r == arena_keys(*a).len(),
{
    a.arena.len()
}

/// Picks the shard for the next insert from a round-robin ticket, and advances the
/// ticket, wrapping around. Without shards there is no pick and the ticket stays.
pub fn round_robin_pick(ticket: &mut usize, num_shards: usize) -> (r: Option<usize>)
    ensures
        num_shards == 0 ==> r is None && *final(ticket) == *old(ticket),
        num_shards > 0 ==> r == Some((*old(ticket) % num_shards) as usize)
            && *final(ticket) == ticket_after(*old(ticket), 1),
{
    if num_shards == 0 {
        return None;
    }
    let t = *ticket;
    *ticket = t.wrapping_add(1);
    proof {
        lemma_ticket_after_wrapping(t, 1);
    }
    if is_power_of_two(num_shards) {
        proof {
            lemma_mask_is_mod(t, num_shards);
        }
        Some(t & (num_shards - 1))
    } else {
        Some(t % num_shards)
    }
}

/// A handle to a value stored in a [`RwShardedSlotMap`].
///
/// Keys are cheap to copy and compare, and stay valid until the value they point to is
/// removed. After removal the slot may be reused by later inserts, under a new
/// generation, so the stale key stays invalid.
#[derive(Clone, Copy, PartialEq, Eq, Structural, Hash, Debug)]
pub struct SlotKey {
    shard: u32,
    inner: u64,
}

impl SlotKey {
    #[verifier::type_invariant]
    spec fn inv(self) -> bool {
        key_shaped(self.inner)
    }

    /// The shard that holds this key's slot.
    pub closed spec fn shard_spec(self) -> int {
        self.shard as int
    }

    /// The key within its shard's arena.
    pub closed spec fn slot(self) -> u64 {
        self.inner
    }

    /// The index of the arena slot the key names.
    pub closed spec fn slot_index(self) -> u32 {
        key_slot(self.inner)
    }

    /// Index of the shard holding this key's slot.
    pub fn shard(&self) -> (r: usize)
        ensures
            r == self.shard_spec(),
    {
        self.shard as usize
    }

    /// The key's debugging text: `SlotKey(`, the shard index, `:`, the arena key as
    /// slotmap writes it, and `)`.
    pub fn debug_string(&self) -> (s: String)
        ensures
            exists|a: Seq<char>, b: Seq<char>| s@ == "SlotKey("@ + a + ":"@ + b + ")"@,
    {
        let mut s = String::from_str("SlotKey(");
        let shard_text = self.shard.to_string();
        s.append(shard_text.as_str());
        s.append(":");
        let key_text = arena_key_text(self.inner);
        s.append(key_text.as_str());
        s.append(")");
        proof {
            assert(s@ == "SlotKey("@ + shard_text@ + ":"@ + key_text@ + ")"@);
        }
        s
    }
}

/// One shard: the arena that issues its keys, and the values held under them, indexed
/// by slot.
#[verifier::reject_recursive_types(V)]
struct SlotShard<V> {
    arena: SlotArena,
    /// The value of each slot of the arena, by slot index; `None` while it is vacant.
    values: Vec<Option<V>>,
    /// The values held, by the 64-bit value of their live key.
    held: Ghost<Map<u64, V>>,
}

impl<V> SlotShard<V> {
    /// The arena's slots are exactly the value vector's positions, its live keys are the
    /// held keys, and each held value sits at its key's slot, whose version is the key's.
    spec fn ok(&self) -> bool {
        let vers = arena_versions(self.arena);
        &&& arena_keys(self.arena) == self.held@.dom()
        &&& self.held@.dom().finite()
        &&& forall|k: u64| #[trigger] self.held@.contains_key(k) ==> key_shaped(k)
        &&& 1 <= self.values.len() <= 0x1_0000_0000
        &&& forall|i: u32| #[trigger] vers.contains_key(i) <==> i < self.values.len()
        &&& forall|k: u64| #[trigger] self.held@.contains_key(k) ==> {
            &&& 1 <= key_slot(k) < self.values.len()
            &&& self.values@[key_slot(k) as int] == Some(self.held@[k])
            &&& vers[key_slot(k)] == key_version(k)
        }
        &&& forall|i: u32| 1 <= i < self.values.len() && #[trigger] vers[i] % 2 == 1 ==> self.slot_held(i)
    }

    /// Some held key names slot `i`.
    spec fn slot_held(&self, i: u32) -> bool {
        exists|k: u64| #[trigger] self.held@.contains_key(k) && key_slot(k) == i
    }

    /// The held keys take distinct slots past the sentinel, so the arena has at least one
    /// slot more than it holds values; a slot past the sentinel is vacant exactly when it
    /// has more than that.
    proof fn lemma_vacancy(&self)
        requires
            self.ok(),
        ensures
            self.held@.len() + 1 <= self.values.len(),
            (exists|i: u32| 1 <= i && #[trigger] arena_versions(self.arena).contains_key(i)
                && arena_versions(self.arena)[i] % 2 == 0) <==> self.held@.len() + 1 < self.values.len(),
    {
        let vers = arena_versions(self.arena);
        let n = self.values.len() as int;
        let sk = self.held@.dom();
        let f = |k: u64| key_slot(k) as int;
        let taken = sk.map(f);
        assert(vstd::relations::injective_on(f, sk)) by {
            assert forall|a: u64, b: u64| sk.contains(a) && sk.contains(b) && #[trigger] f(a) == #[trigger] f(b) implies a
                == b by {
                assert(self.held@.contains_key(a) && self.held@.contains_key(b));
                lemma_key_parts(a, b);
            }
        }
        vstd::set_lib::lemma_map_size(sk, taken, f);
        let range = vstd::set_lib::set_int_range(1, n);
        vstd::set_lib::lemma_int_range(1, n);
        assert(taken.subset_of(range)) by {
            assert forall|x: int| taken.contains(x) implies range.contains(x) by {
                let k = choose|k: u64| sk.contains(k) && f(k) == x;
                assert(self.held@.contains_key(k));
            }
        }
        vstd::set_lib::lemma_len_subset(taken, range);
        if exists|i: u32| 1 <= i && #[trigger] vers.contains_key(i) && vers[i] % 2 == 0 {
            let i = choose|i: u32| 1 <= i && #[trigger] vers.contains_key(i) && vers[i] % 2 == 0;
            assert(taken.subset_of(range.remove(i as int))) by {
                assert forall|x: int| taken.contains(x) implies range.remove(i as int).contains(x) by {
                    let k = choose|k: u64| sk.contains(k) && f(k) == x;
                    assert(self.held@.contains_key(k));
                    assert(key_shaped(k));
                    if x == i as int {
                        assert(vers[key_slot(k)] == key_version(k));
                        assert((k / 0x1_0000_0000) < 0x1_0000_0000) by (nonlinear_arith)
                            requires
                                k < 0x1_0000_0000_0000_0000,
                        ;
                    }
                }
            }
            vstd::set_lib::lemma_len_subset(taken, range.remove(i as int));
        } else {
            assert(range.subset_of(taken)) by {
                assert forall|x: int| range.contains(x) implies taken.contains(x) by {
                    let i = x as u32;
                    assert(vers.contains_key(i));
                    assert(vers[i] % 2 == 1);
                    assert(self.slot_held(i));
                    let k = choose|k: u64| #[trigger] self.held@.contains_key(k) && key_slot(k) == i;
                    assert(sk.contains(k) && f(k) == x);
                }
            }
            vstd::set_lib::lemma_len_subset(range, taken);
        }
    }
}

/// The held values of the shards, in order.
spec fn stores<V>(shards: Seq<SlotShard<V>>) -> Seq<Map<u64, V>> {
    shards.map_values(|sh: SlotShard<V>| sh.held@)
}

/// How many values the first `i` of `stores` hold.
spec fn held_upto<V>(stores: Seq<Map<u64, V>>, i: int) -> nat
    decreases i,
{
    if i <= 0 {
        0
    } else {
        held_upto(stores, i - 1) + stores[i - 1].len()
    }
}

proof fn lemma_held_update<V>(stores: Seq<Map<u64, V>>, j: int, x: Map<u64, V>, i: int)
    requires
        0 <= j < stores.len(),
        0 <= i <= stores.len(),
    ensures
        held_upto(stores.update(j, x), i) == if j < i {
            held_upto(stores, i) - stores[j].len() + x.len()
        } else {
            held_upto(stores, i) as int
        },
    decreases i,
{
    if i > 0 {
        lemma_held_update(stores, j, x, i - 1);
    }
}

proof fn lemma_held_monotone<V>(stores: Seq<Map<u64, V>>, i: int, k: int)
    requires
        0 <= i <= k <= stores.len(),
    ensures
        held_upto(stores, i) <= held_upto(stores, k),
    decreases k - i,
{
    if i < k {
        lemma_held_monotone(stores, i, k - 1);
    }
}

proof fn lemma_held_zero<V>(stores: Seq<Map<u64, V>>, i: int)
    requires
        0 <= i <= stores.len(),
    ensures
        held_upto(stores, i) == 0 <==> forall|j: int| 0 <= j < i ==> #[trigger] stores[j].len() == 0,
    decreases i,
{
    if i > 0 {
        lemma_held_zero(stores, i - 1);
    }
}

/// A key's 64-bit value is fixed by its slot and its version.
proof fn lemma_key_parts(a: u64, b: u64)
    requires
        key_slot(a) == key_slot(b),
        key_version(a) == key_version(b),
    ensures
        a == b,
{
    let m: int = 0x1_0000_0000;
    lemma_fundamental_div_mod(a as int, m);
    lemma_fundamental_div_mod(b as int, m);
    assert(a as int / m < m && b as int / m < m) by (nonlinear_arith)
        requires
            0 <= a < m * m,
            0 <= b < m * m,
            m == 0x1_0000_0000,
    ;
}

/// A map whose keys are exactly the indices below `n` has `n` of them.
proof fn lemma_map_len_contiguous(vers: Map<u32, u32>, n: nat)
    requires
        forall|i: u32| #[trigger] vers.contains_key(i) <==> i < n,
        n <= 0x1_0000_0000,
    ensures
        vers.dom().finite(),
        vers.len() == n,
    decreases n,
{
    if n == 0 {
        assert(vers.dom() =~= Set::<u32>::empty());
    } else {
        let last = (n - 1) as u32;
        let smaller = vers.remove(last);
        lemma_map_len_contiguous(smaller, (n - 1) as nat);
        assert(vers.dom() =~= smaller.dom().insert(last));
    }
}

/// The slot index of a key's 64-bit value, as a position of the value vector.
fn slot_of(k: u64) -> (i: usize)
    ensures
        i == key_slot(k),
{
    assert(k & 0xffff_ffffu64 == k % 0x1_0000_0000) by (bit_vector);
    let low = k & 0xffff_ffffu64;
    low as usize
}

/// A slot map sharded into independent arenas.
///
/// Inserts distribute values round-robin across shards with a ticket; every operation
/// on a [`SlotKey`] touches exactly one shard. Removed slots are recycled by each
/// arena, so memory stays bounded by peak occupancy.
///
/// [`RwShardedSlotMap::len`] and [`RwShardedSlotMap::is_empty`] visit every shard.
#[verifier::reject_recursive_types(V)]
pub struct RwShardedSlotMap<V> {
    shards: Vec<SlotShard<V>>,
    next_ticket: usize,
    keys: Ghost<Set<SlotKey>>,
    /// How many keys each `(shard, slot)` has handed out.
    uses: Ghost<Map<(int, u32), nat>>,
    /// Every key handed out, with its rank among the keys of its slot, from one.
    issued: Ghost<Map<SlotKey, nat>>,
}

/// The slot's version agrees with `u` keys handed out from it: `2u - 1` while the
/// slot holds the last of them, `2u` once it is vacant, modulo `2^32`; a slot that does
/// not exist has handed out none.
spec fn version_tracks(vers: Map<u32, u32>, slot: u32, u: nat) -> bool {
    if vers.contains_key(slot) {
        if vers[slot] % 2 == 1 {
            u >= 1 && vers[slot] as int == (2 * u - 1) % 0x1_0000_0000
        } else {
            vers[slot] as int == (2 * u) % 0x1_0000_0000
        }
    } else {
        u == 0
    }
}

/// The count recorded for `(s, slot)` in `uses`, zero where none is.
spec fn use_count_in(uses: Map<(int, u32), nat>, s: int, slot: u32) -> nat {
    if uses.contains_key((s, slot)) {
        uses[(s, slot)]
    } else {
        0
    }
}

/// Handing out a key from a vacant slot at version `2u` gives version `2(u + 1) - 1`.
proof fn lemma_version_on_insert(u: nat, v: u32)
    requires
        v as int == (2 * u) % 0x1_0000_0000,
    ensures
        v + 1 < 0x1_0000_0000,
        (v + 1) as int == (2 * (u + 1) - 1) % 0x1_0000_0000,
{
    let m: int = 0x1_0000_0000;
    let w: int = 2 * (u as int);
    lemma_fundamental_div_mod(w, m);
    let q = w / m;
    assert(v % 2 == 0);
    lemma_fundamental_div_mod_converse(w + 1, m, q, v + 1);
}

/// Vacating the slot of the `u`-th key moves its version from `2u - 1` to `2u`.
proof fn lemma_version_on_remove(u: nat, v: u32)
    requires
        u >= 1,
        v as int == (2 * u - 1) % 0x1_0000_0000,
    ensures
        (v + 1) % 0x1_0000_0000 == (2 * u) % 0x1_0000_0000,
{
    let m: int = 0x1_0000_0000;
    let w: int = 2 * (u as int);
    lemma_fundamental_div_mod(w - 1, m);
    let q = (w - 1) / m;
    if v + 1 < m {
        lemma_fundamental_div_mod_converse(w, m, q, v + 1);
        lemma_fundamental_div_mod_converse(v + 1, m, 0, v + 1);
    } else {
        lemma_fundamental_div_mod_converse(w, m, q + 1, 0);
        lemma_fundamental_div_mod_converse(v + 1, m, 1, 0);
    }
}

/// Two keys of one slot less than `2^31` handings apart carry different versions.
proof fn lemma_versions_differ(j: nat, u: nat)
    requires
        1 <= j < u,
        u - j < 0x8000_0000,
    ensures
        (2 * j - 1) % 0x1_0000_0000 != (2 * u - 1) % 0x1_0000_0000,
{
    let m: int = 0x1_0000_0000;
    let a: int = 2 * u - 1;
    let b: int = 2 * j - 1;
    lemma_fundamental_div_mod(a, m);
    lemma_fundamental_div_mod(b, m);
    if a % m == b % m {
        assert(false) by (nonlinear_arith)
            requires
                a == m * (a / m) + a % m,
                b == m * (b / m) + b % m,
                a % m == b % m,
                0 < a - b < m,
                m == 0x1_0000_0000;
    }
}

impl<V> View for RwShardedSlotMap<V> {
    type V = Map<SlotKey, V>;

    closed spec fn view(&self) -> Map<SlotKey, V> {
        Map::new(|k: SlotKey| self.keys@.contains(k), |k: SlotKey| self.shards@[k.shard as int].held@[k.inner])
    }
}

impl<V> RwShardedSlotMap<V> {
    /// How many keys slot `slot` of shard `s` has handed out.
    spec fn use_count(&self, s: int, slot: u32) -> nat {
        use_count_in(self.uses@, s, slot)
    }

    /// Every slot's version agrees with the keys it handed out, and every key handed out
    /// carries the version of its rank.
    spec fn gens_ok(&self) -> bool {
        &&& forall|s: int, slot: u32|
            0 <= s < self.shards.len() ==> #[trigger] version_tracks(
                arena_versions(self.shards@[s].arena),
                slot,
                use_count_in(self.uses@, s, slot),
            )
        &&& forall|q: SlotKey| #[trigger]
            self.issued@.contains_key(q) ==> {
                &&& 1 <= self.issued@[q] <= use_count_in(self.uses@, q.shard as int, key_slot(q.inner))
                &&& key_version(q.inner) as int == (2 * self.issued@[q] - 1) % 0x1_0000_0000
            }
    }

    /// Every key this map has handed out.
    pub closed spec fn issued(&self) -> Set<SlotKey> {
        self.issued@.dom()
    }

    /// How many keys the map has handed out from `q`'s slot since `q`.
    pub closed spec fn reuses_since(&self, q: SlotKey) -> int {
        self.use_count(q.shard as int, key_slot(q.inner)) - self.issued@[q]
    }

    /// Every shard's values sit under exactly its arena's live keys, the map's keys are
    /// exactly those, each paired with its shard, and the slots' versions agree with the
    /// keys handed out.
    pub closed spec fn wf(&self) -> bool {
        &&& self.wf_store()
        &&& self.gens_ok()
    }

    spec fn wf_store(&self) -> bool {
        &&& self.shards.len() <= u32::MAX as int + 1
        &&& forall|i: int| 0 <= i < self.shards.len() ==> #[trigger] self.shards@[i].ok()
        &&& forall|k: SlotKey| #[trigger] self.keys@.contains(k) <==> (k.shard < self.shards.len()
            && self.shards@[k.shard as int].held@.contains_key(k.inner))
        &&& self.keys@.finite()
        &&& self.keys@.len() == held_upto(stores(self.shards@), self.shards.len() as int)
        &&& self.keys@.len() <= usize::MAX
    }

    /// A consistent map holds finitely many entries, and none without shards.
    pub proof fn lemma_view_finite(&self)
        requires
            self.wf(),
        ensures
            self@.dom().finite(),
            self.shard_count() == 0 ==> self@ == Map::<SlotKey, V>::empty(),
    {
        self.lemma_view_len();
        assert(self.shard_count() == 0 ==> self@ =~= Map::empty());
    }

    /// The number of shards.
    pub closed spec fn shard_count(&self) -> nat {
        self.shards.len() as nat
    }

    /// The round-robin ticket: the next insert goes to shard `ticket % shard_count`.
    pub closed spec fn ticket(&self) -> usize {
        self.next_ticket
    }

    /// The number of values held by shard `i`.
    pub closed spec fn shard_load(&self, i: int) -> nat {
        self.shards@[i].held@.len()
    }

    /// The number of slots of shard `i`'s arena, its sentinel included: what the shard's
    /// memory grows with.
    pub closed spec fn shard_slots(&self, i: int) -> nat {
        self.shards@[i].values.len() as nat
    }

    /// Every shard has a slot for each value it holds, besides its sentinel. Together
    /// with `insert`, which adds a slot only when none is vacant, a shard's slots stay one
    /// more than the most values it has ever held at once.
    pub proof fn lemma_slots_cover_load(&self, i: int)
        requires
            self.wf(),
            0 <= i < self.shard_count(),
        ensures
            self.shard_load(i) + 1 <= self.shard_slots(i),
    {
        assert(self.shards@[i].ok());
        self.shards@[i].lemma_vacancy();
    }

    /// No shard holds more values than the whole map.
    pub proof fn lemma_shard_load_bound(&self, i: int)
        requires
            self.wf(),
            0 <= i < self.shard_count(),
        ensures
            self.shard_load(i) <= self@.len(),
    {
        self.lemma_view_len();
        lemma_held_monotone(stores(self.shards@), i + 1, self.shards.len() as int);
    }

    proof fn lemma_view_len(&self)
        requires
            self.wf(),
        ensures
            self@.dom() == self.keys@,
            self@.len() == self.keys@.len(),
    {
        assert(self@.dom() =~= self.keys@);
    }

    /// Creates a map with `num_shards` empty shards.
    pub fn new(num_shards: usize) -> (m: Self)
        requires
            num_shards <= u32::MAX as int + 1,
        ensures
            m.wf(),
            m@ == Map::<SlotKey, V>::empty(),
            m.shard_count() == num_shards,
            m.ticket() == 0,
            forall|i: int| 0 <= i < num_shards ==> #[trigger] m.shard_load(i) == 0,
            forall|i: int| 0 <= i < num_shards ==> #[trigger] m.shard_slots(i) == 1,
            m.issued() == Set::<SlotKey>::empty(),
    {
        Self::with_capacity(num_shards, 0)
    }

    /// Creates a map with `num_shards` shards, each arena pre-sized for its share of
    /// about `capacity_hint` values in total.
    pub fn with_capacity(num_shards: usize, capacity_hint: usize) -> (m: Self)
        requires
            num_shards <= u32::MAX as int + 1,
            num_shards == 0 || capacity_hint / num_shards <= arena_capacity_limit(),
        ensures
            m.wf(),
            m@ == Map::<SlotKey, V>::empty(),
            m.shard_count() == num_shards,
            m.ticket() == 0,
            forall|i: int| 0 <= i < num_shards ==> #[trigger] m.shard_load(i) == 0,
            forall|i: int| 0 <= i < num_shards ==> #[trigger] m.shard_slots(i) == 1,
            m.issued() == Set::<SlotKey>::empty(),
    {
        let per_shard = match capacity_hint.checked_div(num_shards) {
            Some(q) => q,
            None => 0,
        };
        let mut shards: Vec<SlotShard<V>> = Vec::with_capacity(num_shards);
        let mut i: usize = 0;
        while i < num_shards
            invariant
                i <= num_shards,
                num_shards == 0 || per_shard <= arena_capacity_limit(),
                shards.len() == i,
                forall|j: int| 0 <= j < i ==> #[trigger] arena_keys(shards@[j].arena) == Set::<u64>::empty(),
                forall|j: int| 0 <= j < i ==> #[trigger] shards@[j].held@ == Map::<u64, V>::empty(),
                forall|j: int| 0 <= j < i ==> #[trigger] shards@[j].values.len() == 1,
                forall|j: int| 0 <= j < i ==> #[trigger] arena_versions(shards@[j].arena) == Map::<u32, u32>::empty().insert(0, 0),
            decreases num_shards - i,
        {
            let arena = arena_with_capacity(per_shard);
            let mut values: Vec<Option<V>> = Vec::new();
            values.push(None);
            shards.push(SlotShard { arena, values, held: Ghost(Map::empty()) });
            i = i + 1;
        }
        let m = RwShardedSlotMap {
            shards,
            next_ticket: 0,
            keys: Ghost(Set::empty()),
            uses: Ghost(Map::empty()),
            issued: Ghost(Map::empty()),
        };
        proof {
            lemma_held_zero(stores(m.shards@), m.shards.len() as int);
            assert(m@ =~= Map::<SlotKey, V>::empty());
        }
        m
    }

    /// The number of shards.
    pub fn num_shards(&self) -> (r: usize)
        ensures
            r == self.shard_count(),
    {
        self.shards.len()
    }

    /// The total number of live values, visiting every shard.
    pub fn len(&self) -> (r: usize)
        requires
            self.wf(),
        ensures
            r == self@.len(),
    {
        proof {
            self.lemma_view_len();
        }
        let mut total: usize = 0;
        let mut i: usize = 0;
        while i < self.shards.len()
            invariant
                self.wf(),
                i <= self.shards.len(),
                total == held_upto(stores(self.shards@), i as int),
            decreases self.shards.len() - i,
        {
            proof {
                lemma_held_monotone(stores(self.shards@), i + 1, self.shards.len() as int);
                assert(self.shards@[i as int].ok());
            }
            total = total + arena_len(&self.shards[i].arena);
            i = i + 1;
        }
        total
    }

    /// Whether no value is held, visiting every shard.
    pub fn is_empty(&self) -> (r: bool)
        requires
            self.wf(),
        ensures
            r == (self@.len() == 0),
    {
        let mut i: usize = 0;
        while i < self.shards.len()
            invariant
                self.wf(),
                i <= self.shards.len(),
                forall|j: int| 0 <= j < i ==> #[trigger] stores(self.shards@)[j].len() == 0,
            decreases self.shards.len() - i,
        {
            proof {
                assert(self.shards@[i as int].ok());
            }
            if arena_len(&self.shards[i].arena) != 0 {
                proof {
                    self.lemma_view_len();
                    lemma_held_monotone(stores(self.shards@), i + 1, self.shards.len() as int);
                }
                return false;
            }
            i = i + 1;
        }
        proof {
            self.lemma_view_len();
            lemma_held_zero(stores(self.shards@), self.shards.len() as int);
        }
        true
    }

    /// The number of values held by the shard that the next insert goes to; `None`
    /// without shards.
    pub fn next_shard_load(&self) -> (r: Option<usize>)
        requires
            self.wf(),
        ensures
            self.shard_count() == 0 ==> r is None,
            self.shard_count() > 0 ==> r == Some(
                self.shard_load(self.ticket() as int % self.shard_count() as int) as usize,
            ),
    {
        let n = self.shards.len();
        if n == 0 {
            return None;
        }
        let i = self.next_ticket % n;
        proof {
            assert(self.shards@[i as int].ok());
        }
        Some(arena_len(&self.shards[i].arena))
    }

    /// Inserts a value and returns its key, in the shard that the round-robin ticket
    /// picks.
    pub fn insert(&mut self, value: V) -> (k: SlotKey)
        requires
            old(self).wf(),
            old(self).shard_count() > 0,
            old(self)@.len() < usize::MAX,
            old(self).shard_load(old(self).ticket() as int % old(self).shard_count() as int) < u32::MAX - 1,
        ensures
            final(self).wf(),
            final(self).shard_count() == old(self).shard_count(),
            !old(self)@.contains_key(k),
            final(self)@ == old(self)@.insert(k, value),
            k.shard_spec() == old(self).ticket() as int % old(self).shard_count() as int,
            final(self).ticket() == ticket_after(old(self).ticket(), 1),
            forall|i: int| 0 <= i < old(self).shard_count() ==> #[trigger] final(self).shard_load(i)
                == old(self).shard_load(i) + if i == k.shard_spec() { 1int } else { 0int },
            forall|i: int| 0 <= i < old(self).shard_count() ==> #[trigger] final(self).shard_slots(i)
                == old(self).shard_slots(i) + if i == k.shard_spec() && old(self).shard_load(i) + 1 == old(
                self,
            ).shard_slots(i) { 1int } else { 0int },
            final(self).issued() == old(self).issued().insert(k),
            final(self).reuses_since(k) == 0,
            forall|q: SlotKey|
                old(self).issued().contains(q) && old(self).reuses_since(q) < 0x7fff_ffff ==> q != k,
            forall|q: SlotKey| #[trigger]
                old(self).issued().contains(q) && q != k ==> final(self).reuses_since(q) == old(self).reuses_since(q)
                    + if q.shard_spec() == k.shard_spec() && q.slot_index() == k.slot_index() { 1int } else { 0int },
    {
        let n = self.shards.len();
        let idx = round_robin_pick(&mut self.next_ticket, n).expect("slot map must have at least one shard");
        let ghost pre = *self;
        let ghost j = idx as int;
        proof {
            pre.lemma_view_len();
            assert(pre.shards@[j].ok());
            pre.shards@[j].lemma_vacancy();
        }
        let inner = arena_insert(&mut self.shards[idx].arena);
        let ghost gv = value;
        let s = slot_of(inner);
        proof {
            assert(pre.shards@[j].ok());
            let ov = arena_versions(pre.shards@[j].arena);
            if ov.contains_key(key_slot(inner)) {
                // The slot was vacant: no held key names it.
                assert forall|k2: u64| #[trigger] pre.shards@[j].held@.contains_key(k2) implies key_slot(k2) != s by {
                    if key_slot(k2) == s {
                        assert(ov[key_slot(k2)] == key_version(k2));
                    }
                }
            } else {
                lemma_map_len_contiguous(ov, pre.shards@[j].values.len() as nat);
            }
        }
        if s < self.shards[idx].values.len() {
            self.shards[idx].values.set(s, Some(value));
        } else {
            self.shards[idx].values.push(Some(value));
        }
        self.shards[idx].held = Ghost(self.shards@[j].held@.insert(inner, gv));
        let k = SlotKey { shard: idx as u32, inner };
        let ghost new_j = self.shards@[j];
        let ghost slot = key_slot(inner);
        let ghost u = pre.use_count(j, slot);
        self.keys = Ghost(self.keys@.insert(k));
        self.uses = Ghost(self.uses@.insert((j, slot), u + 1));
        self.issued = Ghost(self.issued@.insert(k, u + 1));
        proof {
            let ov = arena_versions(pre.shards@[j].arena);
            assert(version_tracks(ov, slot, use_count_in(pre.uses@, j, slot)));
            if ov.contains_key(slot) {
                lemma_version_on_insert(u, ov[slot]);
            }
            assert(key_version(inner) as int == (2 * (u + 1) - 1) % 0x1_0000_0000);
            assert forall|s: int, sl: u32| 0 <= s < self.shards.len() implies #[trigger] version_tracks(
                arena_versions(self.shards@[s].arena),
                sl,
                use_count_in(self.uses@, s, sl),
            ) by {
                if s != j {
                    assert(self.shards@[s] == pre.shards@[s]);
                    assert(use_count_in(self.uses@, s, sl) == use_count_in(pre.uses@, s, sl));
                    assert(version_tracks(arena_versions(pre.shards@[s].arena), sl, use_count_in(pre.uses@, s, sl)));
                } else if sl != slot {
                    assert(use_count_in(self.uses@, s, sl) == use_count_in(pre.uses@, s, sl));
                    assert(version_tracks(arena_versions(pre.shards@[s].arena), sl, use_count_in(pre.uses@, s, sl)));
                }
            }
            assert forall|q: SlotKey| #[trigger] self.issued@.contains_key(q) implies {
                &&& 1 <= self.issued@[q] <= use_count_in(self.uses@, q.shard as int, key_slot(q.inner))
                &&& key_version(q.inner) as int == (2 * self.issued@[q] - 1) % 0x1_0000_0000
            } by {
                if q != k {
                    assert(pre.issued@.contains_key(q));
                    assert(use_count_in(self.uses@, q.shard as int, key_slot(q.inner)) >= use_count_in(pre.uses@, q.shard as int, key_slot(q.inner)));
                }
            }
            assert forall|q: SlotKey|
                pre.issued().contains(q) && pre.reuses_since(q) < 0x7fff_ffff implies q != k by {
                if q.shard as int == j && key_slot(q.inner) == slot {
                    lemma_versions_differ(pre.issued@[q], u + 1);
                }
            }
            assert(self.issued() =~= pre.issued().insert(k));
            assert(self.issued@.dom() =~= pre.issued@.dom().insert(k));
            assert(self.shards@ == pre.shards@.update(j, new_j));
            assert(!pre.keys@.contains(k));
            assert(new_j.held@.dom() =~= pre.shards@[j].held@.dom().insert(inner));
            let nv = arena_versions(new_j.arena);
            assert forall|i: u32| #[trigger] nv.contains_key(i) <==> i < new_j.values.len() by {
                assert(arena_versions(pre.shards@[j].arena).contains_key(i) <==> i < pre.shards@[j].values.len());
            }
            assert forall|k2: u64| #[trigger] new_j.held@.contains_key(k2) implies {
                &&& 1 <= key_slot(k2) < new_j.values.len()
                &&& new_j.values@[key_slot(k2) as int] == Some(new_j.held@[k2])
                &&& nv[key_slot(k2)] == key_version(k2)
            } by {
                if k2 != inner {
                    assert(pre.shards@[j].held@.contains_key(k2));
                    assert(key_slot(k2) != s);
                }
            }
            assert forall|i: u32| 1 <= i < new_j.values.len() && #[trigger] nv[i] % 2 == 1 implies new_j.slot_held(i) by {
                if i == slot {
                    assert(new_j.held@.contains_key(inner));
                } else {
                    let ov = arena_versions(pre.shards@[j].arena);
                    assert(nv[i] == ov[i]);
                    assert(pre.shards@[j].slot_held(i));
                    let k2 = choose|k2: u64| #[trigger] pre.shards@[j].held@.contains_key(k2) && key_slot(k2) == i;
                    assert(new_j.held@.contains_key(k2));
                }
            }
            assert(new_j.ok());
            self.lemma_wf_after_update(pre, j);
            assert forall|q: SlotKey| #[trigger] self@.contains_key(q) implies self@[q] == pre@.insert(k, gv)[q] by {}
            assert(self@ =~= pre@.insert(k, gv));
        }
        k
    }

    /// A clone of the value behind `key`, if it is still live.
    pub fn get_cloned(&self, key: SlotKey) -> (r: Option<V>)
        where
            V: Clone,
        requires
            self.wf(),
        ensures
            match r {
                Some(v) => self@.contains_key(key) && cloned(self@[key], v),
                None => !self@.contains_key(key),
            },
    {
        proof {
            use_type_invariant(&key);
        }
        if key.shard as usize >= self.shards.len() {
            return None;
        }
        let shard = &self.shards[key.shard as usize];
        proof {
            assert(shard.ok());
        }
        if !arena_contains(&shard.arena, key.inner) {
            return None;
        }
        let i = slot_of(key.inner);
        proof {
            assert(shard.ok());
        }
        match &shard.values[i] {
            Some(v) => Some(v.clone()),
            None => None,
        }
    }

    /// Whether `key` still points to a live value.
    pub fn contains(&self, key: SlotKey) -> (r: bool)
        requires
            self.wf(),
        ensures
            r == self@.contains_key(key),
    {
        proof {
            use_type_invariant(&key);
        }
        if key.shard as usize >= self.shards.len() {
            return false;
        }
        proof {
            assert(self.shards@[key.shard as int].ok());
        }
        arena_contains(&self.shards[key.shard as usize].arena, key.inner)
    }

    /// Removes the value behind `key`, returning it if the key was live. The slot
    /// becomes reusable by later inserts, and `key` stays invalid.
    pub fn remove(&mut self, key: SlotKey) -> (r: Option<V>)
        requires
            old(self).wf(),
        ensures
            final(self).wf(),
            final(self).shard_count() == old(self).shard_count(),
            final(self).ticket() == old(self).ticket(),
            final(self)@ == old(self)@.remove(key),
            final(self).issued() == old(self).issued(),
            forall|q: SlotKey| #[trigger] final(self).reuses_since(q) == old(self).reuses_since(q),
            forall|i: int| 0 <= i < old(self).shard_count() ==> #[trigger] final(self).shard_load(i)
                == old(self).shard_load(i) - if old(self)@.contains_key(key) && i == key.shard_spec() { 1int } else { 0int },
            forall|i: int| 0 <= i < old(self).shard_count() ==> #[trigger] final(self).shard_slots(i) == old(self).shard_slots(i),
            r == (if old(self)@.contains_key(key) {
                Some(old(self)@[key])
            } else {
                None
            }),
    {
        proof {
            use_type_invariant(&key);
        }
        if key.shard as usize >= self.shards.len() {
            proof {
                assert(self@.remove(key) =~= self@);
            }
            return None;
        }
        let idx = key.shard as usize;
        let ghost pre = *self;
        let ghost j = idx as int;
        let removed = arena_remove(&mut self.shards[idx].arena, key.inner);
        proof {
            let ov = arena_versions(pre.shards@[j].arena);
            let slot = key_slot(key.inner);
            if removed is Some {
                assert(version_tracks(ov, slot, use_count_in(pre.uses@, j, slot)));
                assert(key_version(key.inner) % 2 == 1);
                lemma_version_on_remove(pre.use_count(j, slot), ov[slot]);
            }
            assert forall|s: int, sl: u32| 0 <= s < self.shards.len() implies #[trigger] version_tracks(
                arena_versions(self.shards@[s].arena),
                sl,
                use_count_in(self.uses@, s, sl),
            ) by {
                assert(version_tracks(arena_versions(pre.shards@[s].arena), sl, use_count_in(pre.uses@, s, sl)));
            }
        }
        let r = if removed.is_some() {
            let s = slot_of(key.inner);
            proof {
                assert(pre.shards@[j].ok());
                assert(pre.shards@[j].held@.contains_key(key.inner));
            }
            let mut out: Option<V> = None;
            self.shards[idx].values.set_and_swap(s, &mut out);
            self.shards[idx].held = Ghost(self.shards@[j].held@.remove(key.inner));
            out
        } else {
            None
        };
        let ghost new_j = self.shards@[j];
        self.keys = Ghost(self.keys@.remove(key));
        proof {
            assert(self.shards@ == pre.shards@.update(j, new_j));
            assert(pre.shards@[j].ok());
            let ov = arena_versions(pre.shards@[j].arena);
            let nv = arena_versions(new_j.arena);
            if pre.keys@.contains(key) {
                assert(new_j.held@.dom() =~= pre.shards@[j].held@.dom().remove(key.inner));
                assert(arena_keys(new_j.arena) =~= new_j.held@.dom());
                let s = key_slot(key.inner);
                assert forall|k2: u64| #[trigger] new_j.held@.contains_key(k2) implies key_slot(k2) != s by {
                    assert(pre.shards@[j].held@.contains_key(k2));
                    if key_slot(k2) == s {
                        lemma_key_parts(k2, key.inner);
                    }
                }
                assert forall|i: u32| #[trigger] nv.contains_key(i) <==> i < new_j.values.len() by {
                    assert(ov.contains_key(i) <==> i < pre.shards@[j].values.len());
                }
                assert forall|k2: u64| #[trigger] new_j.held@.contains_key(k2) implies {
                    &&& key_slot(k2) < new_j.values.len()
                    &&& new_j.values@[key_slot(k2) as int] == Some(new_j.held@[k2])
                    &&& nv[key_slot(k2)] == key_version(k2)
                } by {
                    assert(pre.shards@[j].held@.contains_key(k2));
                    assert(key_slot(k2) != s);
                }
            } else {
                assert(self.keys@ =~= pre.keys@);
                assert(new_j.held@ =~= pre.shards@[j].held@);
                assert(arena_keys(new_j.arena) =~= arena_keys(pre.shards@[j].arena));
                assert(new_j.values == pre.shards@[j].values);
            }
            assert(new_j.ok());
            self.lemma_wf_after_update(pre, j);
            assert forall|q: SlotKey| #[trigger] self@.contains_key(q) implies self@[q] == pre@.remove(key)[q] by {}
            assert(self@ =~= pre@.remove(key));
        }
        r
    }

    /// The map stays consistent when shard `j` changes in exactly the way the map's
    /// keys do.
    proof fn lemma_wf_after_update(&self, pre: Self, j: int)
        requires
            pre.wf(),
            0 <= j < pre.shards.len(),
            self.shards@ == pre.shards@.update(j, self.shards@[j]),
            self.shards@[j].ok(),
            forall|k: SlotKey| k.shard == j ==> (#[trigger] self.keys@.contains(k) <==> self.shards@[j].held@.contains_key(k.inner)),
            forall|k: SlotKey| k.shard != j ==> (#[trigger] self.keys@.contains(k) == pre.keys@.contains(k)),
            self.keys@.finite(),
            self.keys@.len() == pre.keys@.len() - pre.shards@[j].held@.len() + self.shards@[j].held@.len(),
            self.keys@.len() <= usize::MAX,
        ensures
            self.wf_store(),
    {
        assert(stores(self.shards@) =~= stores(pre.shards@).update(j, self.shards@[j].held@));
        lemma_held_update(stores(pre.shards@), j, self.shards@[j].held@, pre.shards.len() as int);
    }
}

impl<V> Default for RwShardedSlotMap<V> {
    /// A map with thirty-two empty shards.
    fn default() -> (m: Self)
        ensures
            m.wf(),
            m@ == Map::<SlotKey, V>::empty(),
            m.shard_count() == 32,
            m.ticket() == 0,
            forall|i: int| 0 <= i < 32 ==> #[trigger] m.shard_load(i) == 0,
            forall|i: int| 0 <= i < 32 ==> #[trigger] m.shard_slots(i) == 1,
            m.issued() == Set::<SlotKey>::empty(),
    {
        Self::new(32)
    }
}

} // verus!
