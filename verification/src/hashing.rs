//! The seeded multiply-xor hashing shared by the sharded map structures.
use vstd::prelude::*;
use std::collections::hash_map::RandomState;
use std::hash::BuildHasher;
use vstd::std_specs::hash::obeys_key_model;

verus! {

/// The odd multiplier of the multiply-xor mixing step.
pub const MULTIPLIER: u64 = 0x517c_c1b7_2722_0a95;

/// One mixing step: xor the absorbed word into the state, then multiply (mod 2^64).
pub open spec fn mix_spec(state: u64, value: u64) -> u64 {
    (state ^ value).wrapping_mul(MULTIPLIER)
}

/// The digest of a single absorbed word under `seed`: what a fresh hasher yields after
/// absorbing `word` once.
pub open spec fn digest_spec(seed: u64, word: u64) -> u64 {
    mix_spec(0, word) ^ seed
}

/// The state after absorbing the words `ws` in order.
pub open spec fn mix_words(state: u64, ws: Seq<u64>) -> u64
    decreases ws.len(),
{
    if ws.len() == 0 {
        state
    } else {
        mix_spec(mix_words(state, ws.drop_last()), ws.last())
    }
}

/// Byte `k` of the `c`-th eight-byte chunk of `bytes`, zero past the end.
pub open spec fn chunk_byte(bytes: Seq<u8>, c: int, k: int) -> u8 {
    if c * 8 + k < bytes.len() {
        bytes[c * 8 + k]
    } else {
        0
    }
}

/// The `c`-th eight-byte chunk of `bytes`, zero-padded.
pub open spec fn chunk(bytes: Seq<u8>, c: int) -> Seq<u8> {
    Seq::new(8, |k: int| chunk_byte(bytes, c, k))
}

/// Eight bytes read as a little-endian word.
pub open spec fn le_word(b: Seq<u8>) -> int {
    b[0] as int + b[1] as int * 0x100 + b[2] as int * 0x1_0000 + b[3] as int * 0x100_0000
        + b[4] as int * 0x1_0000_0000 + b[5] as int * 0x100_0000_0000
        + b[6] as int * 0x1_0000_0000_0000 + b[7] as int * 0x100_0000_0000_0000
}

/// Eight bytes read as a big-endian word.
pub open spec fn be_word(b: Seq<u8>) -> int {
    b[7] as int + b[6] as int * 0x100 + b[5] as int * 0x1_0000 + b[4] as int * 0x100_0000
        + b[3] as int * 0x1_0000_0000 + b[2] as int * 0x100_0000_0000
        + b[1] as int * 0x1_0000_0000_0000 + b[0] as int * 0x100_0000_0000_0000
}

/// `u64::from_ne_bytes`: the word whose memory representation in the machine's byte
/// order is `buf`. Which order that is depends on the machine, so only the two
/// possible readings are claimed.
#[verifier::external_body]
fn u64_from_ne_bytes(buf: [u8; 8]) -> (r: u64)
    ensures
        r == le_word(buf@) || r == be_word(buf@),
{
    u64::from_ne_bytes(buf)
}

/// `u64::from_le_bytes`: the word whose little-endian representation is `buf`.
#[verifier::external_body]
fn u64_from_le_bytes(buf: [u8; 8]) -> (r: u64)
    ensures
        r == le_word(buf@),
{
    u64::from_le_bytes(buf)
}

/// `u64::from_be_bytes`: the word whose big-endian representation is `buf`.
#[verifier::external_body]
fn u64_from_be_bytes(buf: [u8; 8]) -> (r: u64)
    ensures
        r == be_word(buf@),
{
    u64::from_be_bytes(buf)
}

/// A chunk read as a word in the byte order `little` names.
pub open spec fn ordered_word(little: bool, b: Seq<u8>) -> int {
    if little {
        le_word(b)
    } else {
        be_word(b)
    }
}

/// `ws` are the zero-padded eight-byte chunks of `bytes`, each read as a word in the
/// one byte order `little` names.
pub open spec fn chunk_words(ws: Seq<u64>, bytes: Seq<u8>, little: bool) -> bool {
    &&& ws.len() == (bytes.len() + 7) / 8
    &&& forall|c: int| 0 <= c < ws.len() ==> #[trigger] ws[c] == ordered_word(little, chunk(bytes, c))
}

/// Byte `k` of the chunk starting at `start`, zero past the end.
fn padded_byte(bytes: &[u8], start: usize, k: usize) -> (b: u8)
    requires
        start < bytes@.len(),
    ensures
        b == (if start + k < bytes@.len() { bytes@[start + k] } else { 0u8 }),
{
    if k < bytes.len() - start {
        bytes[start + k]
    } else {
        0
    }
}

/// A cheap multiply-xor hasher carrying a per-map seed that is folded in at `finish`.
#[derive(Clone, Copy)]
pub struct ShardHasher {
    state: u64,
    seed: u64,
}

impl View for ShardHasher {
    /// `(state, seed)`
    type V = (u64, u64);

    closed spec fn view(&self) -> (u64, u64) {
        (self.state, self.seed)
    }
}

impl Default for ShardHasher {
    /// A fresh hasher with an empty state and a zero seed.
    fn default() -> (h: ShardHasher)
        ensures
            h@ == (0u64, 0u64),
    {
        ShardHasher { state: 0, seed: 0 }
    }
}

impl ShardHasher {
    /// A fresh hasher with an empty state and the given seed.
    pub fn new(seed: u64) -> (h: ShardHasher)
        ensures
            h@ == (0u64, seed),
    {
        ShardHasher { state: 0, seed }
    }

    /// Absorbs one 64-bit word.
    pub fn mix(&mut self, value: u64)
        ensures
            final(self)@ == (mix_spec(old(self)@.0, value), old(self)@.1),
    {
        self.state = (self.state ^ value).wrapping_mul(MULTIPLIER);
    }

    /// The digest: the state xor the seed.
    pub fn finish(&self) -> (r: u64)
        ensures
            r == self@.0 ^ self@.1,
    {
        self.state ^ self.seed
    }

    /// Absorbs `bytes` as eight-byte chunks, the last one zero-padded, each read as a
    /// word in the machine's byte order: one order, little- or big-endian, for every
    /// chunk.
    pub fn write(&mut self, bytes: &[u8])
        ensures
            final(self)@.1 == old(self)@.1,
            exists|little: bool, ws: Seq<u64>|
                #[trigger] chunk_words(ws, bytes@, little) && final(self)@.0 == mix_words(old(self)@.0, ws),
    {
        // The machine's byte order, read once off the native reading of the word one.
        let one = u64_from_ne_bytes([1u8, 0u8, 0u8, 0u8, 0u8, 0u8, 0u8, 0u8]);
        let little = one == 1;
        let len = bytes.len();
        let chunks: usize = len / 8 + if len % 8 != 0 { 1 } else { 0 };
        proof {
            assert(chunks == (len + 7) / 8) by (nonlinear_arith)
                requires
                    chunks == len / 8 + if len % 8 != 0 { 1int } else { 0int };
        }
        let ghost ws: Seq<u64> = Seq::empty();
        let mut c: usize = 0;
        while c < chunks
            invariant
                c <= chunks,
                chunks == (len + 7) / 8,
                len == bytes@.len(),
                self@.1 == old(self)@.1,
                ws.len() == c,
                self@.0 == mix_words(old(self)@.0, ws),
                forall|i: int| 0 <= i < ws.len() ==>
                    #[trigger] ws[i] == ordered_word(little, chunk(bytes@, i)),
            decreases chunks - c,
        {
            proof {
                assert(c * 8 < len) by (nonlinear_arith)
                    requires
                        c < chunks,
                        chunks == (len + 7) / 8;
            }
            let start = c * 8;
            let buf: [u8; 8] = [
                padded_byte(bytes, start, 0),
                padded_byte(bytes, start, 1),
                padded_byte(bytes, start, 2),
                padded_byte(bytes, start, 3),
                padded_byte(bytes, start, 4),
                padded_byte(bytes, start, 5),
                padded_byte(bytes, start, 6),
                padded_byte(bytes, start, 7),
            ];
            proof {
                assert(buf@ =~= chunk(bytes@, c as int));
            }
            let w = if little {
                u64_from_le_bytes(buf)
            } else {
                u64_from_be_bytes(buf)
            };
            self.mix(w);
            proof {
                let ws2 = ws.push(w);
                assert(ws2.drop_last() =~= ws);
                ws = ws2;
            }
            c = c + 1;
        }
        assert(chunk_words(ws, bytes@, little));
    }

    pub fn write_u8(&mut self, i: u8)
        ensures
            final(self)@ == (mix_spec(old(self)@.0, i as u64), old(self)@.1),
    {
        self.mix(i as u64);
    }

    pub fn write_u16(&mut self, i: u16)
        ensures
            final(self)@ == (mix_spec(old(self)@.0, i as u64), old(self)@.1),
    {
        self.mix(i as u64);
    }

    pub fn write_u32(&mut self, i: u32)
        ensures
            final(self)@ == (mix_spec(old(self)@.0, i as u64), old(self)@.1),
    {
        self.mix(i as u64);
    }

    pub fn write_u64(&mut self, i: u64)
        ensures
            final(self)@ == (mix_spec(old(self)@.0, i), old(self)@.1),
    {
        self.mix(i);
    }

    pub fn write_usize(&mut self, i: usize)
        ensures
            final(self)@ == (mix_spec(old(self)@.0, i as u64), old(self)@.1),
    {
        self.mix(i as u64);
    }

    pub fn write_i8(&mut self, i: i8)
        ensures
            final(self)@ == (mix_spec(old(self)@.0, i as u8 as u64), old(self)@.1),
    {
        self.write_u8(i as u8);
    }

    pub fn write_i16(&mut self, i: i16)
        ensures
            final(self)@ == (mix_spec(old(self)@.0, i as u16 as u64), old(self)@.1),
    {
        self.write_u16(i as u16);
    }

    pub fn write_i32(&mut self, i: i32)
        ensures
            final(self)@ == (mix_spec(old(self)@.0, i as u32 as u64), old(self)@.1),
    {
        self.write_u32(i as u32);
    }

    pub fn write_i64(&mut self, i: i64)
        ensures
            final(self)@ == (mix_spec(old(self)@.0, i as u64), old(self)@.1),
    {
        self.write_u64(i as u64);
    }

    pub fn write_isize(&mut self, i: isize)
        ensures
            final(self)@ == (mix_spec(old(self)@.0, i as usize as u64), old(self)@.1),
    {
        self.write_usize(i as usize);
    }
}

/// Builds [`ShardHasher`]s that all share one seed.
#[derive(Clone, Copy)]
pub struct ShardBuildHasher {
    pub seed: u64,
}

/// `RandomState::new`: a hasher builder with fresh random keys. Nothing is claimed of
/// the keys.
#[verifier::external_body]
fn random_state_new() -> RandomState {
    RandomState::new()
}

/// `BuildHasher::hash_one` on a `RandomState` for a `u64`: the value depends on the
/// state's random keys, so nothing is claimed of it.
#[verifier::external_body]
fn random_state_hash_one(state: &RandomState, value: u64) -> u64 {
    state.hash_one(value)
}

impl ShardBuildHasher {
    /// Derives an unpredictable seed from a freshly keyed `RandomState`.
    pub fn random() -> (b: ShardBuildHasher) {
        let state = random_state_new();
        ShardBuildHasher { seed: random_state_hash_one(&state, 0u64) }
    }

    /// A fresh hasher carrying this builder's seed.
    pub fn build_hasher(&self) -> (h: ShardHasher)
        ensures
            h@ == (0u64, self.seed),
    {
        ShardHasher::new(self.seed)
    }

    /// The digest of a key that hashes as the single word `word`: a fresh hasher
    /// absorbs it once and finishes.
    pub fn hash_word(&self, word: u64) -> (d: u64)
        ensures
            d == digest_spec(self.seed, word),
    {
        let mut h = self.build_hasher();
        h.write_u64(word);
        h.finish()
    }
}

/// A key's digest is what a fresh hasher of the same seed gives after absorbing the
/// key's word once: building, writing the word and finishing agree with
/// [`ShardBuildHasher::hash_word`].
pub proof fn lemma_digest_is_one_write(seed: u64, word: u64)
    ensures
        digest_spec(seed, word) == mix_words(0, seq![word]) ^ seed,
{
    let ws = seq![word];
    assert(ws.drop_last() =~= Seq::<u64>::empty());
    assert(mix_words(0, ws.drop_last()) == 0);
    assert(ws.last() == word);
    assert(mix_words(0, ws) == mix_spec(0, word));
}

/// Multiply-shift range reduction of the digest's high half onto `0..n`.
pub open spec fn reduce_spec(digest: u64, n: usize) -> usize {
    ((digest >> 32u64).wrapping_mul(n as u64) >> 32u64) as usize
}

/// The reduction lands inside `0..n`.
pub proof fn lemma_reduce_bound(digest: u64, n: usize)
    requires
        n > 0,
    ensures
        reduce_spec(digest, n) < n,
{
    let h = digest >> 32u64;
    let m = h.wrapping_mul(n as u64);
    let r = m >> 32u64;
    assert(h < 0x1_0000_0000) by (bit_vector)
        requires
            h == digest >> 32u64,
    ;
    assert(r < 0x1_0000_0000) by (bit_vector)
        requires
            r == m >> 32u64,
    ;
    assert(r == m / 0x1_0000_0000) by (bit_vector)
        requires
            r == m >> 32u64,
    ;
    if n <= 0x1_0000_0000 {
        let nn = n as u64;
        assert(h * nn < 0x1_0000_0000 * nn) by (nonlinear_arith)
            requires
                h < 0x1_0000_0000,
                nn > 0,
        ;
        assert(h * nn <= 0x1_0000_0000_0000_0000) by (nonlinear_arith)
            requires
                h < 0x1_0000_0000,
                nn <= 0x1_0000_0000,
        ;
        assert(m == h * nn);
        assert((h * nn) / 0x1_0000_0000 < nn) by (nonlinear_arith)
            requires
                h * nn < 0x1_0000_0000 * nn,
                nn > 0,
        ;
    }
}

/// Maps the high half of `digest` onto `0..n` by multiply-shift range reduction
/// (Lemire), cheaper than an integer division.
pub fn reduce_range(digest: u64, n: usize) -> (r: usize)
    requires
        n > 0,
    ensures
        r == reduce_spec(digest, n),
        r < n,
{
    let h = digest >> 32u64;
    let m = h.wrapping_mul(n as u64);
    let r = m >> 32u64;
    proof {
        lemma_reduce_bound(digest, n);
    }
    r as usize
}

/// A key that a sharded map can hash and compare: it hashes as one machine word, the
/// way the multiply-xor hasher absorbs an integer key.
pub trait ShardKey: Sized + Eq + std::hash::Hash {
    /// The word the hasher absorbs for this key.
    spec fn key_word(&self) -> u64;

    fn word(&self) -> (w: u64)
        ensures
            w == self.key_word(),
    ;

    /// Key equality.
    fn same_key(&self, other: &Self) -> (b: bool)
        ensures
            b == (*self == *other),
    ;

    /// The key hashes deterministically and compares by value, as standard hash
    /// tables assume.
    proof fn lemma_key_model()
        ensures
            obeys_key_model::<Self>(),
    ;
}

impl ShardKey for u8 {
    proof fn lemma_key_model() {
        broadcast use vstd::std_specs::hash::group_hash_axioms;
    }

    open spec fn key_word(&self) -> u64 {
        *self as u64
    }

    fn word(&self) -> (w: u64) {
        *self as u64
    }

    fn same_key(&self, other: &Self) -> (b: bool) {
        *self == *other
    }
}

impl ShardKey for u16 {
    proof fn lemma_key_model() {
        broadcast use vstd::std_specs::hash::group_hash_axioms;
    }

    open spec fn key_word(&self) -> u64 {
        *self as u64
    }

    fn word(&self) -> (w: u64) {
        *self as u64
    }

    fn same_key(&self, other: &Self) -> (b: bool) {
        *self == *other
    }
}

impl ShardKey for u32 {
    proof fn lemma_key_model() {
        broadcast use vstd::std_specs::hash::group_hash_axioms;
    }

    open spec fn key_word(&self) -> u64 {
        *self as u64
    }

    fn word(&self) -> (w: u64) {
        *self as u64
    }

    fn same_key(&self, other: &Self) -> (b: bool) {
        *self == *other
    }
}

impl ShardKey for u64 {
    proof fn lemma_key_model() {
        broadcast use vstd::std_specs::hash::group_hash_axioms;
    }

    open spec fn key_word(&self) -> u64 {
        *self
    }

    fn word(&self) -> (w: u64) {
        *self
    }

    fn same_key(&self, other: &Self) -> (b: bool) {
        *self == *other
    }
}

impl ShardKey for usize {
    proof fn lemma_key_model() {
        broadcast use vstd::std_specs::hash::group_hash_axioms;
    }

    open spec fn key_word(&self) -> u64 {
        *self as u64
    }

    fn word(&self) -> (w: u64) {
        *self as u64
    }

    fn same_key(&self, other: &Self) -> (b: bool) {
        *self == *other
    }
}

impl ShardKey for i8 {
    proof fn lemma_key_model() {
        broadcast use vstd::std_specs::hash::group_hash_axioms;
    }

    open spec fn key_word(&self) -> u64 {
        (*self as u8) as u64
    }

    fn word(&self) -> (w: u64) {
        (*self as u8) as u64
    }

    fn same_key(&self, other: &Self) -> (b: bool) {
        *self == *other
    }
}

impl ShardKey for i16 {
    proof fn lemma_key_model() {
        broadcast use vstd::std_specs::hash::group_hash_axioms;
    }

    open spec fn key_word(&self) -> u64 {
        (*self as u16) as u64
    }

    fn word(&self) -> (w: u64) {
        (*self as u16) as u64
    }

    fn same_key(&self, other: &Self) -> (b: bool) {
        *self == *other
    }
}

impl ShardKey for i32 {
    proof fn lemma_key_model() {
        broadcast use vstd::std_specs::hash::group_hash_axioms;
    }

    open spec fn key_word(&self) -> u64 {
        (*self as u32) as u64
    }

    fn word(&self) -> (w: u64) {
        (*self as u32) as u64
    }

    fn same_key(&self, other: &Self) -> (b: bool) {
        *self == *other
    }
}

impl ShardKey for i64 {
    proof fn lemma_key_model() {
        broadcast use vstd::std_specs::hash::group_hash_axioms;
    }

    open spec fn key_word(&self) -> u64 {
        *self as u64
    }

    fn word(&self) -> (w: u64) {
        *self as u64
    }

    fn same_key(&self, other: &Self) -> (b: bool) {
        *self == *other
    }
}

impl ShardKey for isize {
    proof fn lemma_key_model() {
        broadcast use vstd::std_specs::hash::group_hash_axioms;
    }

    open spec fn key_word(&self) -> u64 {
        (*self as usize) as u64
    }

    fn word(&self) -> (w: u64) {
        (*self as usize) as u64
    }

    fn same_key(&self, other: &Self) -> (b: bool) {
        *self == *other
    }
}

impl ShardKey for bool {
    proof fn lemma_key_model() {
        broadcast use vstd::std_specs::hash::group_hash_axioms;
    }

    open spec fn key_word(&self) -> u64 {
        if *self { 1u64 } else { 0u64 }
    }

    fn word(&self) -> (w: u64) {
        if *self { 1u64 } else { 0u64 }
    }

    fn same_key(&self, other: &Self) -> (b: bool) {
        *self == *other
    }
}

} // verus!
