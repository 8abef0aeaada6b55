//! Sharded in-memory data structures.
//!
//! - [`ShardCollection`] distributes items round-robin across [`Shard`]s; every
//!   `(shard, item)` index pair returned by a push stays valid for the collection's
//!   lifetime, since items are never removed.
//! - [`dlht_map::RwShardedDlhtMap`] shards keys into tables of cache-line-sized bucket
//!   chains indexing a side arena.
//! - [`map::RwShardedHashMap`] shards keys over standard hash maps.
//! - [`slot_map::RwShardedSlotMap`] mints stable, generational [`slot_map::SlotKey`]
//!   handles at insert time.
//!
//! [`Writable`], [`Readable`], [`ShardWriter`] and [`ShardReader`] describe how shards
//! are written to and read from byte sinks and sources.
pub mod hashing;
pub mod dlht_map;
pub mod map;
pub mod slot_map;

use vstd::prelude::*;
use vstd::pervasive::cloned;
use vstd::arithmetic::power2::{pow2, lemma2_to64, lemma_pow2_unfold};
use vstd::bits::lemma_usize_low_bits_mask_is_mod;
use vstd::arithmetic::div_mod::{
    lemma_add_mod_noop, lemma_small_mod, lemma_mod_sub_multiples_vanish, lemma_fundamental_div_mod,
    lemma_fundamental_div_mod_converse,
};

verus! {

/// A single shard: an append-only sequence of items.
pub struct Shard<V> {
    items: Vec<V>,
}

impl<V> View for Shard<V> {
    type V = Seq<V>;

    closed spec fn view(&self) -> Seq<V> {
        self.items@
    }
}

impl<V> Shard<V> {
    /// Creates an empty shard.
    pub fn new() -> (s: Self)
        ensures
            s@ == Seq::<V>::empty(),
    {
        Shard { items: Vec::new() }
    }

    /// Creates an empty shard with room reserved for `capacity` items.
    pub fn with_capacity(capacity: usize) -> (s: Self)
        ensures
            s@ == Seq::<V>::empty(),
    {
        Shard { items: Vec::with_capacity(capacity) }
    }

    /// Appends `item` and returns its index.
    pub fn push(&mut self, item: V) -> (idx: usize)
        ensures
            final(self)@ == old(self)@.push(item),
            idx == old(self)@.len(),
    {
        self.items.push(item);
        self.items.len() - 1
    }

    /// Appends all `items`, in order, reserving room for the whole batch at once.
    pub fn extend(&mut self, items: Vec<V>)
        ensures
            final(self)@ == old(self)@ + items@,
    {
        let mut batch = items;
        if batch.len() == 0 {
            assert(self@ =~= old(self)@ + batch@);
            return;
        }
        let count = batch.len();
        self.items.reserve(count);
        self.items.append(&mut batch);
    }

    /// All items, in index order.
    pub fn items(&self) -> (r: &Vec<V>)
        ensures
            r@ == self@,
    {
        &self.items
    }

    /// A clone of the item at `idx`.
    pub fn get_cloned(&self, idx: usize) -> (r: Option<V>)
        where
            V: Clone,
        ensures
            match r {
                Some(v) => idx < self@.len() && cloned(self@[idx as int], v),
                None => idx >= self@.len(),
            },
    {
        if idx < self.items.len() {
            Some(self.items[idx].clone())
        } else {
            None
        }
    }

    /// A read handle on the item at `idx`.
    pub fn get_ref(&self, idx: usize) -> (r: Option<ShardRef<'_, V>>)
        ensures
            match r {
                Some(handle) => idx < self@.len() && handle.value() == self@[idx as int],
                None => idx >= self@.len(),
            },
    {
        ShardRef::new(&self.items, idx)
    }

    /// A write handle on the item at `idx`: whatever the handle leaves in the item is
    /// what the shard holds there afterwards.
    pub fn get_mut(&mut self, idx: usize) -> (r: Option<ShardMutRef<'_, V>>)
        ensures
            match r {
                Some(handle) => {
                    &&& idx < old(self)@.len()
                    &&& handle.is_held()
                    &&& *handle.held() == old(self)@[idx as int]
                    &&& final(self)@ == old(self)@.update(idx as int, *final(handle.held()))
                },
                None => idx >= old(self)@.len() && final(self)@ == old(self)@,
            },
    {
        if idx < self.items.len() {
            Some(ShardMutRef { item: Some(&mut self.items[idx]) })
        } else {
            None
        }
    }

    /// The number of items.
    pub fn len(&self) -> (r: usize)
        ensures
            r == self@.len(),
    {
        self.items.len()
    }

    /// Whether the shard holds no item.
    pub fn is_empty(&self) -> (r: bool)
        ensures
            r == (self@.len() == 0),
    {
        self.items.len() == 0
    }
}

impl<V> Default for Shard<V> {
    /// An empty shard.
    fn default() -> (s: Self)
        ensures
            s@ == Seq::<V>::empty(),
    {
        Self::new()
    }
}

/// A read handle on one item of a [`Shard`].
pub struct ShardRef<'a, V> {
    guard: &'a Vec<V>,
    idx: usize,
}

impl<'a, V> ShardRef<'a, V> {
    #[verifier::type_invariant]
    spec fn in_bounds(self) -> bool {
        self.idx < self.guard@.len()
    }

    /// The item the handle reads.
    pub closed spec fn value(self) -> V {
        self.guard@[self.idx as int]
    }

    fn new(guard: &'a Vec<V>, idx: usize) -> (r: Option<Self>)
        ensures
            match r {
                Some(handle) => idx < guard@.len() && handle.value() == guard@[idx as int],
                None => idx >= guard@.len(),
            },
    {
        if idx < guard.len() {
            Some(ShardRef { guard, idx })
        } else {
            None
        }
    }

    /// A reference to the item.
    pub fn get_ref(&self) -> (r: &V)
        ensures
            *r == self.value(),
    {
        proof {
            use_type_invariant(self);
        }
        &self.guard[self.idx]
    }
}

impl<'a, V> core::ops::Deref for ShardRef<'a, V> {
    type Target = V;

    fn deref(&self) -> (r: &V)
        ensures
            *r == self.value(),
    {
        self.get_ref()
    }
}

/// A write handle on one item of a [`Shard`], until released.
pub struct ShardMutRef<'a, V> {
    item: Option<&'a mut V>,
}

impl<'a, V> ShardMutRef<'a, V> {
    /// The handle still grants access to its item.
    pub closed spec fn is_held(&self) -> bool {
        self.item is Some
    }

    /// The reference to the item, while held.
    pub closed spec fn held(&self) -> &'a mut V {
        self.item.unwrap()
    }

    /// A mutable reference to the item; the handle must not have been released.
    pub fn get_mut_ref(&mut self) -> (r: &mut V)
        requires
            old(self).is_held(),
        ensures
            *r == *old(self).held(),
            final(self).is_held(),
            *final(self).held() == *final(r),
            *final(final(self).held()) == *final(old(self).held()),
    {
        match &mut self.item {
            Some(item) => &mut **item,
            None => vstd::pervasive::unreached(),
        }
    }

    /// Gives up access to the item early; releasing twice is harmless.
    pub fn release_lock(&mut self)
        ensures
            !final(self).is_held(),
    {
        self.item = None;
    }
}

/// Writes a value into any byte sink, reporting the number of bytes written.
///
/// `write_to` takes `&self`, so items held in a [`Shard`] can be written out without
/// exclusive access.
pub trait Writable {
    type Error;

    fn write_to<W: std::io::Write>(&self, writer: &mut W) -> Result<u64, Self::Error>;
}

/// Reads a value back from any byte source.
pub trait Readable: Sized {
    type Error;

    fn read_from<R: std::io::Read>(reader: &mut R) -> Result<Self, Self::Error>;
}

/// Defines how a piece of data `D` is divided into shards, collected into a
/// [`ShardCollection`]. The number of shards follows from a threshold of items per
/// shard, [`ShardExt::THRESHOLD`] unless [`ShardExt::shard_with`] is given another.
pub trait ShardExt<D: ?Sized> {
    /// The item type stored inside each shard.
    type Item;

    /// The default maximum number of items targeted per shard.
    const THRESHOLD: usize = 32;

    /// Shards `data` with [`ShardExt::THRESHOLD`] items per shard at most: the result is
    /// what [`ShardExt::shard_with`] gives for that threshold.
    fn shard(data: &D) -> (r: ShardCollection<Self::Item>)
        ensures
            call_ensures(Self::shard_with, (data, Self::THRESHOLD), r),
    {
        Self::shard_with(data, Self::THRESHOLD)
    }

    /// Shards `data`, targeting at most `threshold` items per shard.
    fn shard_with(data: &D, threshold: usize) -> ShardCollection<Self::Item>;
}

/// A handle that writes [`Shard`]s into the sink `W`, carrying a payload `D` that
/// formats may inspect, and counting the bytes written so far.
pub struct ShardWriter<W, D, E> {
    writer: W,
    data_size: u64,
    data: D,
    checksum: u64,
    _e: core::marker::PhantomData<E>,
}

impl<W, D, E> ShardWriter<W, D, E> {
    /// The sink.
    pub closed spec fn sink(&self) -> W {
        self.writer
    }

    /// The payload.
    pub closed spec fn payload(&self) -> D {
        self.data
    }

    /// The number of bytes written so far.
    pub closed spec fn written(&self) -> u64 {
        self.data_size
    }

    /// The running checksum.
    pub closed spec fn check(&self) -> u64 {
        self.checksum
    }

    /// A writer over `writer` carrying `data`, with nothing written yet.
    pub fn new(writer: W, data: D) -> (w: Self)
        ensures
            w.sink() == writer,
            w.payload() == data,
            w.written() == 0,
            w.check() == 0,
    {
        ShardWriter { writer, data_size: 0, data, checksum: 0, _e: core::marker::PhantomData }
    }

    /// The payload.
    pub fn data(&self) -> (r: &D)
        ensures
            *r == self.payload(),
    {
        &self.data
    }

    /// Mutable access to the payload.
    pub fn data_mut(&mut self) -> (r: &mut D)
        ensures
            *r == old(self).payload(),
            final(self).payload() == *final(r),
            final(self).sink() == old(self).sink(),
            final(self).written() == old(self).written(),
            final(self).check() == old(self).check(),
    {
        &mut self.data
    }

    /// The number of bytes written so far.
    pub fn data_size(&self) -> (r: u64)
        ensures
            r == self.written(),
    {
        self.data_size
    }

    /// The running checksum, reserved for format-specific use.
    pub fn checksum(&self) -> (r: u64)
        ensures
            r == self.check(),
    {
        self.checksum
    }

    /// Consumes the writer, handing back its sink.
    pub fn into_writer(self) -> (r: W)
        ensures
            r == self.sink(),
    {
        self.writer
    }
}

#[verifier::external_type_specification]
#[verifier::external_body]
pub struct ExIoError(std::io::Error);

/// `Read::read` on the source. What it reports depends on the source alone, so nothing
/// is promised of it here: std's documentation asks implementations to stay within the
/// buffer, but tells callers not to rely on that.
#[verifier::external_body]
fn source_read<R: std::io::Read>(source: &mut R, buf: &mut [u8]) -> (r: Result<usize, std::io::Error>)
{
    source.read(buf)
}

/// The running count of the bytes read through a [`CountingSource`], with the byte
/// count of every read that succeeded.
pub struct Tally {
    count: u64,
    reads: Ghost<Seq<u64>>,
}

impl Tally {
    #[verifier::type_invariant]
    spec fn inv(self) -> bool {
        self.count == written_after(0, self.reads@)
    }
}

/// A source that counts the bytes read through it.
pub struct CountingSource<R> {
    source: R,
    tally: Tally,
}

impl<R> CountingSource<R> {
    /// The wrapped source.
    pub closed spec fn inner(self) -> R {
        self.source
    }

    /// The byte counts of the successful reads, in order.
    pub closed spec fn reads(self) -> Seq<u64> {
        self.tally.reads@
    }

    /// The number of bytes read through it, wrapping around.
    pub closed spec fn count(self) -> u64 {
        self.tally.count
    }
}

impl<R: std::io::Read> std::io::Read for CountingSource<R> {
    /// Reads from the wrapped source, adding what it reports to the tally.
    fn read(&mut self, buf: &mut [u8]) -> (r: Result<usize, std::io::Error>)
        ensures
            r matches Ok(n) ==> final(self).reads() == old(self).reads().push(n as u64),
            r is Err ==> final(self).reads() == old(self).reads(),
            final(self).count() == written_after(0, final(self).reads()),
    {
        let r = source_read(&mut self.source, buf);
        match r {
            Ok(n) => {
                proof {
                    use_type_invariant(&self.tally);
                }
                let ghost reads = self.tally.reads@.push(n as u64);
                proof {
                    assert(reads.drop_last() =~= self.tally.reads@);
                }
                self.tally = Tally { count: self.tally.count.wrapping_add(n as u64), reads: Ghost(reads) };
                proof {
                    use_type_invariant(&self.tally);
                }
                Ok(n)
            },
            Err(e) => {
                proof {
                    use_type_invariant(&self.tally);
                }
                Err(e)
            },
        }
    }
}

/// `V::read_from` was called on a source holding `before` and returned `result`.
pub open spec fn read_gave<V: Readable, S: std::io::Read>(before: S, result: Result<V, V::Error>) -> bool {
    exists|m: &mut S| #[trigger] call_ensures(V::read_from::<S>, (m,), result) && mut_ref_current(m) == before
}

/// Reads one item from the source.
fn read_item<V: Readable, S: std::io::Read>(source: &mut S) -> (r: Result<V, V::Error>)
    ensures
        read_gave::<V, S>(*old(source), r),
        exists|m: &mut S|
            #[trigger] call_ensures(V::read_from::<S>, (m,), r) && mut_ref_current(m) == *old(source) && mut_ref_future(m)
                == *final(source),
{
    V::read_from(source)
}

/// A read that failed with `e`, from a call that returned `res`.
proof fn lemma_read_err<V: Readable, S: std::io::Read>(res: Result<V, V::Error>, e: V::Error, before: S, after: S)
    requires
        res == Err::<V, V::Error>(e),
        exists|m: &mut S| #[trigger] call_ensures(V::read_from::<S>, (m,), res) && mut_ref_current(m) == before && mut_ref_future(m) == after,
    ensures
        exists|m: &mut S| #[trigger] call_ensures(V::read_from::<S>, (m,), Err::<V, V::Error>(e)) && mut_ref_current(m) == before && mut_ref_future(m) == after,
{
}

/// One more successful read, started on the source the earlier reads left, extends the
/// chain of reads by its value and the source it leaves.
proof fn lemma_read_chain<V: Readable, S: std::io::Read>(vals: Seq<V>, srcs: Seq<S>, v: V, after: S, res: Result<V, V::Error>)
    requires
        vals.len() + 1 == srcs.len(),
        exists|ms: Seq<&mut S>| #![trigger ms.len()] ms.len() == vals.len() && forall|k: int| #![trigger vals[k]] 0 <= k < vals.len() ==> call_ensures(V::read_from::<S>, (ms[k],), Ok::<V, V::Error>(vals[k])) && mut_ref_current(ms[k]) == srcs[k] && mut_ref_future(ms[k]) == srcs[k + 1],
        res == Ok::<V, V::Error>(v),
        exists|m: &mut S| #[trigger] call_ensures(V::read_from::<S>, (m,), res) && mut_ref_current(m) == srcs.last() && mut_ref_future(m) == after,
    ensures
        exists|ms: Seq<&mut S>| #![trigger ms.len()] ms.len() == vals.push(v).len() && forall|k: int| #![trigger vals.push(v)[k]] 0 <= k < vals.push(v).len() ==> call_ensures(V::read_from::<S>, (ms[k],), Ok::<V, V::Error>(vals.push(v)[k])) && mut_ref_current(ms[k]) == srcs.push(after)[k] && mut_ref_future(ms[k]) == srcs.push(after)[k + 1],
{
    let m0 = choose|m: &mut S| #[trigger] call_ensures(V::read_from::<S>, (m,), res) && mut_ref_current(m) == srcs.last() && mut_ref_future(m) == after;
    let ms = choose|ms: Seq<&mut S>| #![trigger ms.len()] ms.len() == vals.len() && forall|k: int| #![trigger vals[k]] 0 <= k < vals.len() ==> call_ensures(V::read_from::<S>, (ms[k],), Ok::<V, V::Error>(vals[k])) && mut_ref_current(ms[k]) == srcs[k] && mut_ref_future(ms[k]) == srcs[k + 1];
    let ms2 = ms.push(m0);
    assert forall|k: int| #![trigger vals.push(v)[k]] 0 <= k < vals.push(v).len() implies call_ensures(V::read_from::<S>, (ms2[k],), Ok::<V, V::Error>(vals.push(v)[k])) && mut_ref_current(ms2[k]) == srcs.push(after)[k] && mut_ref_future(ms2[k]) == srcs.push(after)[k + 1] by {
        if k < vals.len() {
            assert(vals.push(v)[k] == vals[k]);
            assert(ms2[k] == ms[k]);
            assert(srcs.push(after)[k] == srcs[k] && srcs.push(after)[k + 1] == srcs[k + 1]);
        } else {
            assert(vals.push(v)[k] == v);
            assert(ms2[k] == m0);
        }
    }
    assert(ms2.len() == vals.push(v).len());
}

/// A handle that reads [`Shard`]s back from the source `R`, carrying a payload `D`
/// that formats may inspect, and counting the bytes read so far.
pub struct ShardReader<R, D, E> {
    reader: CountingSource<R>,
    data: D,
    checksum: u64,
    _e: core::marker::PhantomData<E>,
}

impl<R, D, E> ShardReader<R, D, E> {
    /// The source.
    pub closed spec fn source(&self) -> R {
        self.reader.source
    }

    /// The counting source that reads go through.
    pub closed spec fn counting(&self) -> CountingSource<R> {
        self.reader
    }

    /// The payload.
    pub closed spec fn payload(&self) -> D {
        self.data
    }

    /// The number of bytes read so far, wrapping around.
    pub closed spec fn consumed(&self) -> u64 {
        self.reader.tally.count
    }

    /// The byte counts of the successful reads of the source so far, in order.
    pub closed spec fn reads(&self) -> Seq<u64> {
        self.reader.tally.reads@
    }

    /// The running checksum.
    pub closed spec fn check(&self) -> u64 {
        self.checksum
    }

    /// A reader over `reader` carrying `data`, with nothing read yet.
    pub fn new(reader: R, data: D) -> (r: Self)
        ensures
            r.source() == reader,
            r.payload() == data,
            r.consumed() == 0,
            r.reads() == Seq::<u64>::empty(),
            r.check() == 0,
    {
        let tally = Tally { count: 0, reads: Ghost(Seq::empty()) };
        ShardReader {
            reader: CountingSource { source: reader, tally },
            data,
            checksum: 0,
            _e: core::marker::PhantomData,
        }
    }

    /// The payload.
    pub fn data(&self) -> (r: &D)
        ensures
            *r == self.payload(),
    {
        &self.data
    }

    /// Mutable access to the payload.
    pub fn data_mut(&mut self) -> (r: &mut D)
        ensures
            *r == old(self).payload(),
            final(self).payload() == *final(r),
            final(self).source() == old(self).source(),
            final(self).consumed() == old(self).consumed(),
            final(self).check() == old(self).check(),
    {
        &mut self.data
    }

    /// The number of bytes read so far: the wrapping sum of what the source reported
    /// for every successful read.
    pub fn data_size(&self) -> (r: u64)
        ensures
            r == self.consumed(),
            r == written_after(0, self.reads()),
    {
        proof {
            use_type_invariant(&self.reader.tally);
        }
        self.reader.tally.count
    }

    /// The running checksum, reserved for format-specific use.
    pub fn checksum(&self) -> (r: u64)
        ensures
            r == self.check(),
    {
        self.checksum
    }

    /// Consumes the reader, handing back its source.
    pub fn into_reader(self) -> (r: R)
        ensures
            r == self.source(),
    {
        self.reader.source
    }
}

/// Writes a whole [`Shard`] into a sink through its items' [`Writable`] impl.
pub trait ShardWriteFormat<W, D, E> {
    fn write_shard<V: Writable<Error = E>>(&mut self, shard: &Shard<V>) -> Result<(), E> where
        W: std::io::Write,
    ;
}

/// Reads a whole [`Shard`] of `count` items from a source through their
/// [`Readable`] impl.
pub trait ShardReadFormat<R> {
    fn read_shard<V: Readable>(&mut self, count: usize) -> Result<Shard<V>, V::Error> where
        R: std::io::Read,
    ;
}

/// The running byte count after a sequence of writes that reported `counts`: each
/// count is added, wrapping around.
pub open spec fn written_after(start: u64, counts: Seq<u64>) -> u64
    decreases counts.len(),
{
    if counts.len() == 0 {
        start
    } else {
        written_after(start, counts.drop_last()).wrapping_add(counts.last())
    }
}

/// Counting in two runs is counting once over both: the byte count after the writes
/// `a` and then the writes `b` is the count after `a + b`, so a writer's or reader's
/// `data_size` after any number of calls is the wrapping sum of every count they
/// reported.
pub proof fn lemma_written_after_concat(start: u64, a: Seq<u64>, b: Seq<u64>)
    ensures
        written_after(written_after(start, a), b) == written_after(start, a + b),
    decreases b.len(),
{
    if b.len() > 0 {
        lemma_written_after_concat(start, a, b.drop_last());
        assert((a + b).drop_last() =~= a + b.drop_last());
        assert((a + b).last() == b.last());
    } else {
        assert(a + b =~= a);
    }
}

/// `item.write_to` was called on a sink holding `before` and returned `result`.
pub open spec fn wrote_item<V: Writable, W: std::io::Write>(item: V, before: W, result: Result<u64, V::Error>) -> bool {
    exists|m: &mut W| #[trigger] call_ensures(V::write_to::<W>, (&item, m), result) && mut_ref_current(m) == before
}

/// Writes one item into the sink.
fn write_item<V: Writable, W: std::io::Write>(item: &V, sink: &mut W) -> (r: Result<u64, V::Error>)
    ensures
        wrote_item(*item, *old(sink), r),
        exists|m: &mut W|
            #[trigger] call_ensures(V::write_to::<W>, (item, m), r) && mut_ref_current(m) == *old(sink) && mut_ref_future(m)
                == *final(sink),
{
    V::write_to(item, sink)
}

/// One more successful write, started on the sink the earlier writes left, extends the
/// chain of writes by its count and the sink it leaves.
proof fn lemma_write_chain<V: Writable, W: std::io::Write>(
    items: Seq<V>,
    counts: Seq<u64>,
    sinks: Seq<W>,
    n: u64,
    after: W,
    res: Result<u64, V::Error>,
)
    requires
        counts.len() < items.len(),
        counts.len() + 1 == sinks.len(),
        exists|ms: Seq<&mut W>| #![trigger ms.len()] ms.len() == counts.len() && forall|k: int| #![trigger counts[k]] 0 <= k < counts.len() ==> call_ensures(V::write_to::<W>, (&items[k], ms[k]), Ok::<u64, V::Error>(counts[k])) && mut_ref_current(ms[k]) == sinks[k] && mut_ref_future(ms[k]) == sinks[k + 1],
        res == Ok::<u64, V::Error>(n),
        exists|m: &mut W| #[trigger] call_ensures(V::write_to::<W>, (&items[counts.len() as int], m), res) && mut_ref_current(m) == sinks.last() && mut_ref_future(m) == after,
    ensures
        exists|ms: Seq<&mut W>| #![trigger ms.len()] ms.len() == counts.push(n).len() && forall|k: int| #![trigger counts.push(n)[k]] 0 <= k < counts.push(n).len() ==> call_ensures(V::write_to::<W>, (&items[k], ms[k]), Ok::<u64, V::Error>(counts.push(n)[k])) && mut_ref_current(ms[k]) == sinks.push(after)[k] && mut_ref_future(ms[k]) == sinks.push(after)[k + 1],
{
    let m0 = choose|m: &mut W| #[trigger] call_ensures(V::write_to::<W>, (&items[counts.len() as int], m), res) && mut_ref_current(m) == sinks.last() && mut_ref_future(m) == after;
    let ms = choose|ms: Seq<&mut W>| #![trigger ms.len()] ms.len() == counts.len() && forall|k: int| #![trigger counts[k]] 0 <= k < counts.len() ==> call_ensures(V::write_to::<W>, (&items[k], ms[k]), Ok::<u64, V::Error>(counts[k])) && mut_ref_current(ms[k]) == sinks[k] && mut_ref_future(ms[k]) == sinks[k + 1];
    let ms2 = ms.push(m0);
    assert forall|k: int| #![trigger counts.push(n)[k]] 0 <= k < counts.push(n).len() implies call_ensures(V::write_to::<W>, (&items[k], ms2[k]), Ok::<u64, V::Error>(counts.push(n)[k])) && mut_ref_current(ms2[k]) == sinks.push(after)[k] && mut_ref_future(ms2[k]) == sinks.push(after)[k + 1] by {
        if k < counts.len() {
            assert(counts.push(n)[k] == counts[k]);
            assert(ms2[k] == ms[k]);
            assert(sinks.push(after)[k] == sinks[k] && sinks.push(after)[k + 1] == sinks[k + 1]);
        } else {
            assert(counts.push(n)[k] == n);
            assert(ms2[k] == m0);
        }
    }
    assert(ms2.len() == counts.push(n).len());
}

/// A write of `item` that failed with `e`, from a call that returned `res`.
proof fn lemma_write_err<V: Writable, W: std::io::Write>(item: V, res: Result<u64, V::Error>, e: V::Error, before: W, after: W)
    requires
        res == Err::<u64, V::Error>(e),
        exists|m: &mut W| #[trigger] call_ensures(V::write_to::<W>, (&item, m), res) && mut_ref_current(m) == before && mut_ref_future(m) == after,
    ensures
        exists|m: &mut W| #[trigger] call_ensures(V::write_to::<W>, (&item, m), Err::<u64, V::Error>(e)) && mut_ref_current(m) == before && mut_ref_future(m) == after,
{
}

/// Writes every item of the shard in index order, adding each reported byte count to
/// [`ShardWriter::data_size`], and stops at the first error.
impl<W, D, E> ShardWriteFormat<W, D, E> for ShardWriter<W, D, E> {
    fn write_shard<V: Writable<Error = E>>(&mut self, shard: &Shard<V>) -> (r: Result<(), E>) where
        W: std::io::Write,
        ensures
            final(self).payload() == old(self).payload(),
            final(self).check() == old(self).check(),
            exists|counts: Seq<u64>, sinks: Seq<W>|
                #![trigger written_after(old(self).written(), counts), sinks.len()]
                {
                    &&& counts.len() <= shard@.len()
                    &&& sinks.len() == counts.len() + 1
                    &&& sinks[0] == old(self).sink()
                    &&& forall|i: int|
                        #![trigger counts[i]]
                        0 <= i < counts.len() ==> wrote_item(shard@[i], sinks[i], Ok(counts[i]))
                    &&& written_after(old(self).written(), counts) == final(self).written()
                    &&& match r {
                        Ok(()) => counts.len() == shard@.len() && final(self).sink() == sinks.last(),
                        Err(e) => counts.len() < shard@.len() && wrote_item(shard@[counts.len() as int], sinks.last(), Err(e)),
                    }
                },
            exists|counts: Seq<u64>, sinks: Seq<W>, ms: Seq<&mut W>|
                #![trigger counts.len(), sinks.len(), ms.len()]
                {
                    &&& counts.len() <= shard@.len()
                    &&& sinks.len() == counts.len() + 1
                    &&& sinks[0] == old(self).sink()
                    &&& counts.len() <= ms.len()
                    &&& forall|i: int|
                        #![trigger counts[i]]
                        0 <= i < counts.len() ==> call_ensures(V::write_to::<W>, (&shard@[i], ms[i]), Ok::<u64, E>(counts[i]))
                            && mut_ref_current(ms[i]) == sinks[i] && mut_ref_future(ms[i]) == sinks[i + 1]
                    &&& written_after(old(self).written(), counts) == final(self).written()
                    &&& match r {
                        Ok(()) => ms.len() == counts.len() && counts.len() == shard@.len() && final(self).sink() == sinks.last(),
                        Err(e) => {
                            &&& ms.len() == counts.len() + 1
                            &&& counts.len() < shard@.len()
                            &&& call_ensures(V::write_to::<W>, (&shard@[counts.len() as int], ms.last()), Err::<u64, E>(e))
                            &&& mut_ref_current(ms.last()) == sinks.last()
                            &&& mut_ref_future(ms.last()) == final(self).sink()
                        },
                    }
                },
    {
        let items = shard.items();
        let mut size = self.data_size;
        let ghost mut counts: Seq<u64> = Seq::empty();
        let ghost mut sinks: Seq<W> = seq![self.writer];
        let mut i: usize = 0;
        proof {
            let ms0 = Seq::<&mut W>::empty();
            assert(ms0.len() == counts.len());
        }
        while i < items.len()
            invariant
                i <= items.len(),
                items@ == shard@,
                counts.len() == i,
                sinks.len() == i + 1,
                sinks[0] == old(self).writer,
                sinks.last() == self.writer,
                forall|j: int| #![trigger counts[j]] 0 <= j < i ==> wrote_item(shard@[j], sinks[j], Ok(counts[j])),
                exists|ms: Seq<&mut W>|
                    #![trigger ms.len()]
                    ms.len() == counts.len() && forall|k: int|
                        #![trigger counts[k]]
                        0 <= k < counts.len() ==> call_ensures(V::write_to::<W>, (&shard@[k], ms[k]), Ok::<u64, E>(counts[k]))
                            && mut_ref_current(ms[k]) == sinks[k] && mut_ref_future(ms[k]) == sinks[k + 1],
                written_after(old(self).written(), counts) == size,
                self.data_size == old(self).data_size,
                self.data == old(self).data,
                self.checksum == old(self).checksum,
            decreases items.len() - i,
        {
            let ghost before = self.writer;
            let res = write_item(&items[i], &mut self.writer);
            let ghost after = self.writer;
            proof {
                assert(items@[i as int] == shard@[i as int]);
                assert(wrote_item(shard@[i as int], before, res));
            }
            let n = match res {
                Ok(n) => n,
                Err(e) => {
                    proof {
                        let ms = choose|ms: Seq<&mut W>|
                            #![trigger ms.len()]
                            ms.len() == counts.len() && forall|k: int|
                                #![trigger counts[k]]
                                0 <= k < counts.len() ==> call_ensures(V::write_to::<W>, (&shard@[k], ms[k]), Ok::<u64, E>(counts[k]))
                                    && mut_ref_current(ms[k]) == sinks[k] && mut_ref_future(ms[k]) == sinks[k + 1];
                        lemma_write_err::<V, W>(shard@[i as int], res, e, before, after);
                        let m1 = choose|m: &mut W|
                            #[trigger] call_ensures(V::write_to::<W>, (&shard@[i as int], m), Err::<u64, E>(e))
                                && mut_ref_current(m) == before && mut_ref_future(m) == after;
                        let ms1 = ms.push(m1);
                        assert(ms1.last() == m1);
                        assert forall|k: int| #![trigger counts[k]] 0 <= k < counts.len() implies call_ensures(V::write_to::<W>, (&shard@[k], ms1[k]), Ok::<u64, E>(counts[k]))
                            && mut_ref_current(ms1[k]) == sinks[k] && mut_ref_future(ms1[k]) == sinks[k + 1] by {
                            assert(ms1[k] == ms[k]);
                        }
                        assert(ms1.len() == counts.len() + 1);
                    }
                    self.data_size = size;
                    assert(written_after(old(self).written(), counts) == self.data_size);
                    assert(sinks.len() == counts.len() + 1);
                    assert(wrote_item(shard@[counts.len() as int], sinks.last(), Err::<u64, E>(e)));
                    return Err(e);
                },
            };
            proof {
                lemma_write_chain::<V, W>(shard@, counts, sinks, n, after, res);
                assert(res == Ok::<u64, E>(n));
                assert(wrote_item(shard@[i as int], before, Ok::<u64, E>(n)));
                assert(counts.push(n).drop_last() =~= counts);
                let c0 = counts;
                let s0 = sinks;
                counts = counts.push(n);
                sinks = sinks.push(self.writer);
                assert forall|j: int| #![trigger counts[j]] 0 <= j < i + 1 implies wrote_item(shard@[j], sinks[j], Ok(counts[j])) by {
                    if j < i {
                        assert(sinks[j] == s0[j] && sinks[j + 1] == s0[j + 1]);
                        assert(counts[j] == c0[j]);
                    } else {
                        assert(sinks[j] == before && sinks[j + 1] == self.writer);
                        assert(counts[j] == n);
                    }
                }
                assert(written_after(old(self).written(), counts) == size.wrapping_add(n));
            }
            size = size.wrapping_add(n);
            i = i + 1;
        }
        self.data_size = size;
        assert(written_after(old(self).written(), counts) == self.data_size && sinks.len() == counts.len() + 1);
        proof {
            let ms = choose|ms: Seq<&mut W>|
                #![trigger ms.len()]
                ms.len() == counts.len() && forall|k: int|
                    #![trigger counts[k]]
                    0 <= k < counts.len() ==> call_ensures(V::write_to::<W>, (&shard@[k], ms[k]), Ok::<u64, E>(counts[k]))
                        && mut_ref_current(ms[k]) == sinks[k] && mut_ref_future(ms[k]) == sinks[k + 1];
            assert(ms.len() == counts.len());
        }
        Ok(())
    }
}

/// Reads exactly `count` items in index order into a new shard, stopping at the first
/// error.
impl<R, D, E> ShardReadFormat<R> for ShardReader<R, D, E> {
    fn read_shard<V: Readable>(&mut self, count: usize) -> (r: Result<Shard<V>, V::Error>) where
        R: std::io::Read,
        ensures
            r matches Ok(shard) ==> shard@.len() == count,
            count == 0 ==> (r matches Ok(shard) && shard@.len() == 0),
            final(self).payload() == old(self).payload(),
            final(self).check() == old(self).check(),
            final(self).consumed() == written_after(0, final(self).reads()),
            exists|vals: Seq<V>, srcs: Seq<CountingSource<R>>|
                #![trigger vals.len(), srcs.len()]
                {
                    &&& srcs.len() == vals.len() + 1
                    &&& srcs[0] == old(self).counting()
                    &&& vals.len() <= count
                    &&& forall|i: int|
                        #![trigger vals[i]]
                        0 <= i < vals.len() ==> read_gave::<V, CountingSource<R>>(srcs[i], Ok(vals[i]))
                    &&& match r {
                        Ok(shard) => vals.len() == count && shard@ == vals && final(self).counting() == srcs.last(),
                        Err(e) => vals.len() < count && read_gave::<V, CountingSource<R>>(srcs.last(), Err(e)),
                    }
                },
            exists|vals: Seq<V>, srcs: Seq<CountingSource<R>>, ms: Seq<&mut CountingSource<R>>|
                #![trigger vals.len(), srcs.len(), ms.len()]
                {
                    &&& srcs.len() == vals.len() + 1
                    &&& srcs[0] == old(self).counting()
                    &&& vals.len() <= count
                    &&& vals.len() <= ms.len()
                    &&& forall|i: int|
                        #![trigger vals[i]]
                        0 <= i < vals.len() ==> call_ensures(V::read_from::<CountingSource<R>>, (ms[i],), Ok::<V, V::Error>(vals[i]))
                            && mut_ref_current(ms[i]) == srcs[i] && mut_ref_future(ms[i]) == srcs[i + 1]
                    &&& match r {
                        Ok(shard) => ms.len() == vals.len() && vals.len() == count && shard@ == vals && final(self).counting()
                            == srcs.last(),
                        Err(e) => {
                            &&& ms.len() == vals.len() + 1
                            &&& vals.len() < count
                            &&& call_ensures(V::read_from::<CountingSource<R>>, (ms.last(),), Err::<V, V::Error>(e))
                            &&& mut_ref_current(ms.last()) == srcs.last()
                            &&& mut_ref_future(ms.last()) == final(self).counting()
                        },
                    }
                },
    {
        let mut shard = Shard::with_capacity(count);
        let ghost mut srcs: Seq<CountingSource<R>> = seq![self.reader];
        let mut i: usize = 0;
        proof {
            let ms0 = Seq::<&mut CountingSource<R>>::empty();
            assert(ms0.len() == shard@.len());
        }
        while i < count
            invariant
                i <= count,
                shard@.len() == i,
                srcs.len() == i + 1,
                srcs[0] == old(self).reader,
                srcs.last() == self.reader,
                forall|j: int| #![trigger shard@[j]] 0 <= j < i ==> read_gave::<V, CountingSource<R>>(srcs[j], Ok(shard@[j])),
                exists|ms: Seq<&mut CountingSource<R>>|
                    #![trigger ms.len()]
                    ms.len() == shard@.len() && forall|k: int|
                        #![trigger shard@[k]]
                        0 <= k < shard@.len() ==> call_ensures(V::read_from::<CountingSource<R>>, (ms[k],), Ok::<V, V::Error>(shard@[k]))
                            && mut_ref_current(ms[k]) == srcs[k] && mut_ref_future(ms[k]) == srcs[k + 1],
                self.data == old(self).data,
                self.checksum == old(self).checksum,
            decreases count - i,
        {
            let ghost before = self.reader;
            let res = read_item::<V, CountingSource<R>>(&mut self.reader);
            let ghost after = self.reader;
            let item = match res {
                Ok(item) => item,
                Err(e) => {
                    proof {
                        use_type_invariant(&self.reader.tally);
                        assert(read_gave::<V, CountingSource<R>>(srcs.last(), Err(e)));
                        assert(srcs.len() == shard@.len() + 1);
                        let ms = choose|ms: Seq<&mut CountingSource<R>>|
                            #![trigger ms.len()]
                            ms.len() == shard@.len() && forall|k: int|
                                #![trigger shard@[k]]
                                0 <= k < shard@.len() ==> call_ensures(V::read_from::<CountingSource<R>>, (ms[k],), Ok::<V, V::Error>(shard@[k]))
                                    && mut_ref_current(ms[k]) == srcs[k] && mut_ref_future(ms[k]) == srcs[k + 1];
                        assert(ms.len() == shard@.len());
                        lemma_read_err::<V, CountingSource<R>>(res, e, before, after);
                        let m1 = choose|m: &mut CountingSource<R>|
                            #[trigger] call_ensures(V::read_from::<CountingSource<R>>, (m,), Err::<V, V::Error>(e))
                                && mut_ref_current(m) == before && mut_ref_future(m) == after;
                        let ms1 = ms.push(m1);
                        assert(ms1.last() == m1);
                        assert forall|k: int| #![trigger shard@[k]] 0 <= k < shard@.len() implies call_ensures(V::read_from::<CountingSource<R>>, (ms1[k],), Ok::<V, V::Error>(shard@[k]))
                            && mut_ref_current(ms1[k]) == srcs[k] && mut_ref_future(ms1[k]) == srcs[k + 1] by {
                            assert(ms1[k] == ms[k]);
                        }
                        assert(ms1.len() == shard@.len() + 1);
                    }
                    return Err(e);
                },
            };
            let ghost sh0 = shard@;
            let ghost s0 = srcs;
            proof {
                lemma_read_chain::<V, CountingSource<R>>(sh0, s0, item, after, res);
                srcs = srcs.push(self.reader);
            }
            shard.push(item);
            proof {
                assert forall|j: int| #![trigger shard@[j]] 0 <= j < i + 1 implies read_gave::<V, CountingSource<R>>(srcs[j], Ok(shard@[j])) by {
                    if j < i {
                        assert(shard@[j] == sh0[j]);
                    } else {
                        assert(shard@[j] == item);
                        assert(srcs[j] == before);
                    }
                }
            }
            i = i + 1;
        }
        proof {
            use_type_invariant(&self.reader.tally);
            let ms = choose|ms: Seq<&mut CountingSource<R>>|
                #![trigger ms.len()]
                ms.len() == shard@.len() && forall|k: int|
                    #![trigger shard@[k]]
                    0 <= k < shard@.len() ==> call_ensures(V::read_from::<CountingSource<R>>, (ms[k],), Ok::<V, V::Error>(shard@[k]))
                        && mut_ref_current(ms[k]) == srcs[k] && mut_ref_future(ms[k]) == srcs[k + 1];
            assert(ms.len() == shard@.len());
        }
        Ok(shard)
    }
}

/// `n` is a power of two, in the bitwise form `n != 0 && n & (n - 1) == 0`.
pub open spec fn is_pow2_usize(n: usize) -> bool {
    n != 0 && n & ((n - 1) as usize) == 0
}

/// `usize::is_power_of_two`.
pub fn is_power_of_two(n: usize) -> (r: bool)
    ensures
        r == is_pow2_usize(n),
{
    n != 0 && n & (n - 1) == 0
}

/// A power of two `n` is `2^k` for an exponent `k` below the word size.
proof fn lemma_pow2_exponent(n: usize) -> (k: nat)
    requires
        is_pow2_usize(n),
    ensures
        k < usize::BITS,
        pow2(k) == n,
    decreases n,
{
    lemma2_to64();
    if n == 1 {
        0
    } else {
        let h = n / 2;
        let m = (n - 1) as usize;
        let hm = (h - 1) as usize;
        assert(n != 0 && n != 1 && m == n - 1 && n & m == 0 ==> n % 2 == 0) by (bit_vector);
        assert(n != 0 && n != 1 && m == n - 1 && n & m == 0 && h == n / 2 && hm == h - 1 ==> h != 0
            && h & hm == 0) by (bit_vector);
        let k1 = lemma_pow2_exponent(h);
        lemma_pow2_unfold(k1 + 1);
        assert(k1 + 1 < usize::BITS) by {
            if k1 + 1 == usize::BITS {
                assert(h <= usize::MAX / 2);
            }
        }
        k1 + 1
    }
}

/// For a power of two `n`, masking by `n - 1` is reduction modulo `n`.
pub proof fn lemma_mask_is_mod(t: usize, n: usize)
    requires
        is_pow2_usize(n),
    ensures
        t & ((n - 1) as usize) == t % n,
{
    let k = lemma_pow2_exponent(n);
    lemma_usize_low_bits_mask_is_mod(t, k);
}

/// The total number of items over the first `i` shards.
pub open spec fn total_upto<V>(shards: Seq<Seq<V>>, i: int) -> nat
    decreases i,
{
    if i <= 0 {
        0
    } else {
        total_upto(shards, i - 1) + shards[i - 1].len()
    }
}

/// The total number of items over all shards.
pub open spec fn total<V>(shards: Seq<Seq<V>>) -> nat {
    total_upto(shards, shards.len() as int)
}

proof fn lemma_total_update<V>(shards: Seq<Seq<V>>, j: int, x: Seq<V>, i: int)
    requires
        0 <= j < shards.len(),
        0 <= i <= shards.len(),
    ensures
        total_upto(shards.update(j, x), i) == if j < i {
            total_upto(shards, i) - shards[j].len() + x.len()
        } else {
            total_upto(shards, i) as int
        },
    decreases i,
{
    if i > 0 {
        lemma_total_update(shards, j, x, i - 1);
    }
}

proof fn lemma_total_monotone<V>(shards: Seq<Seq<V>>, i: int, k: int)
    requires
        0 <= i <= k <= shards.len(),
    ensures
        total_upto(shards, i) <= total_upto(shards, k),
    decreases k - i,
{
    if i < k {
        lemma_total_monotone(shards, i, k - 1);
    }
}

proof fn lemma_total_zero<V>(shards: Seq<Seq<V>>, i: int)
    requires
        0 <= i <= shards.len(),
    ensures
        total_upto(shards, i) == 0 <==> forall|j: int| 0 <= j < i ==> #[trigger] shards[j].len() == 0,
    decreases i,
{
    if i > 0 {
        lemma_total_zero(shards, i - 1);
    }
}

/// The ticket `h` places after `base`, wrapping around the word like the counter does.
pub open spec fn ticket_after(base: usize, h: int) -> usize {
    ((base as int + h) % (usize::MAX as int + 1)) as usize
}

/// Drawing `h` tickets after `base` is wrapping addition.
pub proof fn lemma_ticket_after_wrapping(base: usize, h: usize)
    ensures
        ticket_after(base, h as int) == base.wrapping_add(h),
{
    let m = usize::MAX as int + 1;
    let x = base as int + h as int;
    if x < m {
        lemma_small_mod(x as nat, m as nat);
    } else {
        lemma_small_mod((x - m) as nat, m as nat);
        lemma_mod_sub_multiples_vanish(x, m);
    }
}

/// One round-robin push: the item goes to shard `ticket % n`, and the ticket advances
/// by one, wrapping around. Nothing happens without shards.
pub open spec fn push_spec<V>(shards: Seq<Seq<V>>, ticket: usize, item: V) -> (Seq<Seq<V>>, usize) {
    if shards.len() == 0 {
        (shards, ticket)
    } else {
        let s = ticket as int % shards.len() as int;
        (shards.update(s, shards[s].push(item)), ticket_after(ticket, 1))
    }
}

/// Round-robin pushes of `items`, in order.
pub open spec fn extend_spec<V>(shards: Seq<Seq<V>>, ticket: usize, items: Seq<V>) -> (Seq<Seq<V>>, usize)
    decreases items.len(),
{
    if items.len() == 0 {
        (shards, ticket)
    } else {
        let (s2, t2) = extend_spec(shards, ticket, items.drop_last());
        push_spec(s2, t2, items.last())
    }
}

/// The first `h` items, keeping only those whose ticket after `base` lands on shard `s`.
pub open spec fn routed<V>(items: Seq<V>, base: usize, n: int, s: int, h: int) -> Seq<V>
    decreases h,
{
    if h <= 0 {
        Seq::empty()
    } else if ticket_after(base, h - 1) as int % n == s {
        routed(items, base, n, s, h - 1).push(items[h - 1])
    } else {
        routed(items, base, n, s, h - 1)
    }
}

/// Round-robin pushes of a prefix of `items` append to each shard exactly the items
/// routed to it, and advance the ticket by the prefix's length.
proof fn lemma_extend_routes<V>(shards: Seq<Seq<V>>, base: usize, items: Seq<V>, h: int)
    requires
        shards.len() > 0,
        0 <= h <= items.len(),
    ensures
        extend_spec(shards, base, items.take(h)).1 == ticket_after(base, h),
        extend_spec(shards, base, items.take(h)).0.len() == shards.len(),
        forall|s: int| 0 <= s < shards.len() ==> #[trigger] extend_spec(shards, base, items.take(h)).0[s]
            == shards[s] + routed(items, base, shards.len() as int, s, h),
    decreases h,
{
    let n = shards.len() as int;
    if h == 0 {
        assert(items.take(0) =~= Seq::<V>::empty());
        assert(extend_spec(shards, base, items.take(0)) == (shards, base));
        assert forall|s: int| 0 <= s < n implies #[trigger] extend_spec(shards, base, items.take(h)).0[s]
            == shards[s] + routed(items, base, n, s, h) by {
            assert(shards[s] + Seq::<V>::empty() =~= shards[s]);
        }
    } else {
        lemma_extend_routes(shards, base, items, h - 1);
        assert(items.take(h).drop_last() =~= items.take(h - 1));
        assert(items.take(h).last() == items[h - 1]);
        let (s2, t2) = extend_spec(shards, base, items.take(h - 1));
        assert(t2 == ticket_after(base, h - 1));
        assert(ticket_after(t2, 1) == ticket_after(base, h)) by {
            let m = usize::MAX as int + 1;
            lemma_add_mod_noop(base as int + h - 1, 1, m);
        }
        assert(extend_spec(shards, base, items.take(h)) == push_spec(s2, t2, items[h - 1]));
        let target = t2 as int % n;
        assert forall|s: int| 0 <= s < n implies #[trigger] extend_spec(shards, base, items.take(h)).0[s]
            == shards[s] + routed(items, base, n, s, h) by {
            if s == target {
                assert(shards[s] + routed(items, base, n, s, h - 1).push(items[h - 1]) =~= (shards[s]
                    + routed(items, base, n, s, h - 1)).push(items[h - 1]));
            }
        }
    }
}

/// A collection of [`Shard`]s that distributes items round-robin.
///
/// Items are never removed, so every `(shard, item)` index pair returned by
/// [`ShardCollection::push`] stays valid for the collection's whole lifetime.
pub struct ShardCollection<V> {
    shards: Vec<Shard<V>>,
    rr_counter: usize,
}

impl<V> View for ShardCollection<V> {
    /// The items of each shard.
    type V = Seq<Seq<V>>;

    closed spec fn view(&self) -> Seq<Seq<V>> {
        self.shards@.map_values(|s: Shard<V>| s@)
    }
}

impl<V> ShardCollection<V> {
    /// The round-robin ticket the next push draws.
    pub closed spec fn ticket(&self) -> usize {
        self.rr_counter
    }

    /// The items of all shards together fit the word size.
    pub open spec fn wf(&self) -> bool {
        total(self@) <= usize::MAX
    }

    /// Creates a collection of `num_shards` empty shards.
    pub fn new(num_shards: usize) -> (c: Self)
        ensures
            c.wf(),
            c@ == Seq::new(num_shards as nat, |i: int| Seq::<V>::empty()),
            total(c@) == 0,
            c.ticket() == 0,
    {
        Self::with_capacity(num_shards, 0)
    }

    /// Creates a collection of `num_shards` empty shards, each with room reserved for
    /// `per_shard_capacity` items.
    pub fn with_capacity(num_shards: usize, per_shard_capacity: usize) -> (c: Self)
        ensures
            c.wf(),
            c@ == Seq::new(num_shards as nat, |i: int| Seq::<V>::empty()),
            total(c@) == 0,
            c.ticket() == 0,
    {
        let mut shards: Vec<Shard<V>> = Vec::with_capacity(num_shards);
        let mut i: usize = 0;
        while i < num_shards
            invariant
                i <= num_shards,
                shards.len() == i,
                forall|j: int| 0 <= j < i ==> #[trigger] shards@[j]@ == Seq::<V>::empty(),
            decreases num_shards - i,
        {
            shards.push(Shard::with_capacity(per_shard_capacity));
            i = i + 1;
        }
        let c = ShardCollection { shards, rr_counter: 0 };
        proof {
            assert(c@ =~= Seq::new(num_shards as nat, |i: int| Seq::<V>::empty()));
            lemma_total_zero(c@, num_shards as int);
        }
        c
    }

    /// Pushes `item` into the shard that the round-robin ticket selects, returning the
    /// shard's index and the item's index inside it; `None` without shards.
    pub fn push(&mut self, item: V) -> (r: Option<(usize, usize)>)
        requires
            old(self).wf(),
            total(old(self)@) < usize::MAX,
        ensures
            final(self).wf(),
            (final(self)@, final(self).ticket()) == push_spec(old(self)@, old(self).ticket(), item),
            old(self)@.len() == 0 ==> final(self)@ == old(self)@ && final(self).ticket() == old(self).ticket(),
            old(self)@.len() > 0 ==> final(self).ticket() == old(self).ticket().wrapping_add(1),
            old(self)@.len() > 0 ==> final(self)@ == old(self)@.update(
                old(self).ticket() as int % old(self)@.len() as int,
                old(self)@[old(self).ticket() as int % old(self)@.len() as int].push(item),
            ),
            total(final(self)@) == total(old(self)@) + if old(self)@.len() == 0 { 0int } else { 1int },
            r == (if old(self)@.len() == 0 {
                None
            } else {
                let s = old(self).ticket() as int % old(self)@.len() as int;
                Some((s as usize, old(self)@[s].len() as usize))
            }),
    {
        let n = self.shards.len();
        if n == 0 {
            return None;
        }
        let ticket = self.rr_counter;
        self.rr_counter = ticket.wrapping_add(1);
        proof {
            lemma_ticket_after_wrapping(ticket, 1);
        }
        let shard_idx = if is_power_of_two(n) {
            proof {
                lemma_mask_is_mod(ticket, n);
            }
            ticket & (n - 1)
        } else {
            ticket % n
        };
        let ghost pre = self.shards@;
        let item_idx = self.shards[shard_idx].push(item);
        proof {
            let v = self@;
            let ov = old(self)@;
            assert(self.shards@ == pre.update(shard_idx as int, self.shards@[shard_idx as int]));
            assert(v =~= ov.update(shard_idx as int, ov[shard_idx as int].push(item)));
            lemma_total_update(ov, shard_idx as int, ov[shard_idx as int].push(item), n as int);
        }
        Some((shard_idx, item_idx))
    }

    /// Pushes all `items`, in order, following the round-robin distribution of
    /// [`ShardCollection::push`]. Batches of at least two items per shard draw their
    /// tickets in one step and fill each shard with a single append; smaller batches
    /// are pushed one at a time.
    pub fn extend(&mut self, items: Vec<V>)
        requires
            old(self).wf(),
            total(old(self)@) + items.len() <= usize::MAX,
        ensures
            final(self).wf(),
            (final(self)@, final(self).ticket()) == extend_spec(old(self)@, old(self).ticket(), items@),
            final(self)@.len() == old(self)@.len(),
            old(self)@.len() == 0 ==> final(self)@ == old(self)@ && final(self).ticket() == old(self).ticket(),
            old(self)@.len() > 0 ==> final(self).ticket() == old(self).ticket().wrapping_add(items.len()),
            forall|s: int| 0 <= s < old(self)@.len() ==> #[trigger] final(self)@[s] == old(self)@[s] + routed(
                items@,
                old(self).ticket(),
                old(self)@.len() as int,
                s,
                items.len() as int,
            ),
            total(final(self)@) == total(old(self)@) + if old(self)@.len() == 0 { 0int } else { items@.len() as int },
    {
        let n = self.shards.len();
        let ghost items_view = items@;
        if n == 0 {
            proof {
                lemma_extend_empty(old(self)@, old(self).ticket(), items_view);
            }
            return;
        }
        let lower = items.len();
        let threshold = if n > usize::MAX / 2 {
            usize::MAX
        } else {
            n * 2
        };
        let mut rev = reversed(items);
        if lower < threshold {
            let mut i: usize = 0;
            while i < lower
                invariant
                    i <= lower,
                    lower == items_view.len(),
                    rev@.len() == lower - i,
                    forall|j: int| 0 <= j < rev@.len() ==> #[trigger] rev@[j] == items_view[lower - 1 - j],
                    (self@, self.ticket()) == extend_spec(old(self)@, old(self).ticket(), items_view.take(i as int)),
                    total(self@) == total(old(self)@) + i,
                    total(old(self)@) + lower <= usize::MAX,
                    self@.len() == n,
                    n > 0,
                decreases lower - i,
            {
                let item = rev.pop().unwrap();
                assert(item == items_view[i as int]);
                let ghost before = self@;
                self.push(item);
                proof {
                    assert(items_view.take(i + 1).drop_last() =~= items_view.take(i as int));
                    assert(items_view.take(i + 1).last() == items_view[i as int]);
                    let s = extend_spec(old(self)@, old(self).ticket(), items_view.take(i as int)).1 as int % n as int;
                    lemma_total_update(before, s, before[s].push(item), n as int);
                }
                i = i + 1;
            }
            proof {
                assert(items_view.take(lower as int) =~= items_view);
                lemma_extend_routes(old(self)@, old(self).ticket(), items_view, lower as int);
                lemma_ticket_after_wrapping(old(self).ticket(), lower);
            }
            return;
        }
        let base = self.rr_counter;
        self.rr_counter = base.wrapping_add(lower);
        proof {
            lemma_ticket_after_wrapping(base, lower);
        }
        let mut buffers: Vec<Vec<V>> = Vec::with_capacity(n);
        let mut b: usize = 0;
        while b < n
            invariant
                b <= n,
                buffers.len() == b,
                forall|s: int| 0 <= s < b ==> #[trigger] buffers@[s]@ == Seq::<V>::empty(),
            decreases n - b,
        {
            buffers.push(Vec::new());
            b = b + 1;
        }
        let pow2 = is_power_of_two(n);
        let mut handled: usize = 0;
        while handled < lower
            invariant
                handled <= lower,
                lower == items_view.len(),
                rev@.len() == lower - handled,
                forall|j: int| 0 <= j < rev@.len() ==> #[trigger] rev@[j] == items_view[lower - 1 - j],
                buffers.len() == n,
                n > 0,
                pow2 == is_pow2_usize(n),
                forall|s: int| 0 <= s < n ==> #[trigger] buffers@[s]@ == routed(items_view, base, n as int, s, handled as int),
            decreases lower - handled,
        {
            let item = rev.pop().unwrap();
            let ticket = base.wrapping_add(handled);
            let shard_idx = if pow2 {
                proof {
                    lemma_mask_is_mod(ticket, n);
                }
                ticket & (n - 1)
            } else {
                ticket % n
            };
            let ghost pre = buffers@;
            buffers[shard_idx].push(item);
            proof {
                lemma_ticket_after_wrapping(base, handled);
                assert(ticket == ticket_after(base, handled as int));
                assert forall|s: int| 0 <= s < n implies #[trigger] buffers@[s]@ == routed(items_view, base, n as int, s, handled + 1) by {
                    if s != shard_idx as int {
                        assert(buffers@[s] == pre[s]);
                    }
                }
            }
            handled = handled + 1;
        }
        let mut s: usize = 0;
        let mut rest = reversed(buffers);
        while s < n
            invariant
                s <= n,
                rest@.len() == n - s,
                forall|j: int| 0 <= j < rest@.len() ==> #[trigger] rest@[j]@ == routed(items_view, base, n as int, n - 1 - j, lower as int),
                self@.len() == n,
                self.ticket() == base.wrapping_add(lower),
                forall|j: int| 0 <= j < s ==> #[trigger] self@[j] == old(self)@[j] + routed(items_view, base, n as int, j, lower as int),
                forall|j: int| s <= j < n ==> #[trigger] self@[j] == old(self)@[j],
            decreases n - s,
        {
            let buffer = rest.pop().unwrap();
            let ghost pre_view = self@;
            if buffer.len() != 0 {
                let ghost pre = self.shards@;
                let ghost bv = buffer@;
                self.shards[s].extend(buffer);
                proof {
                    assert(self.shards@ == pre.update(s as int, self.shards@[s as int]));
                    assert(self@ =~= pre_view.update(s as int, pre_view[s as int] + bv));
                }
            } else {
                assert(buffer@ =~= Seq::<V>::empty());
                assert(old(self)@[s as int] + buffer@ =~= old(self)@[s as int]);
            }
            s = s + 1;
        }
        proof {
            lemma_extend_routes(old(self)@, base, items_view, lower as int);
            assert(items_view.take(lower as int) =~= items_view);
            let (es, et) = extend_spec(old(self)@, base, items_view);
            assert(self@ =~= es);
            lemma_extend_total(old(self)@, base, items_view);
        }
    }

    /// The shard at `idx`.
    pub fn get_shard(&self, idx: usize) -> (r: Option<&Shard<V>>)
        ensures
            match r {
                Some(shard) => idx < self@.len() && shard@ == self@[idx as int],
                None => idx >= self@.len(),
            },
    {
        if idx < self.shards.len() {
            Some(&self.shards[idx])
        } else {
            None
        }
    }

    /// The shard at `idx`, to modify in place: whatever the shard finally holds is what
    /// the collection holds at `idx` afterwards, and nothing else changes.
    pub fn get_shard_mut(&mut self, idx: usize) -> (r: Option<&mut Shard<V>>)
        ensures
            final(self).ticket() == old(self).ticket(),
            match r {
                Some(shard) => {
                    &&& idx < old(self)@.len()
                    &&& shard@ == old(self)@[idx as int]
                    &&& final(self)@ == old(self)@.update(idx as int, final(shard)@)
                },
                None => idx >= old(self)@.len() && final(self)@ == old(self)@,
            },
    {
        if idx < self.shards.len() {
            Some(&mut self.shards[idx])
        } else {
            None
        }
    }

    /// The number of shards.
    pub fn num_shards(&self) -> (r: usize)
        ensures
            r == self@.len(),
    {
        self.shards.len()
    }

    /// The total number of items across all shards.
    pub fn len(&self) -> (r: usize)
        requires
            self.wf(),
        ensures
            r == total(self@),
    {
        let mut sum: usize = 0;
        let mut i: usize = 0;
        while i < self.shards.len()
            invariant
                self.wf(),
                i <= self.shards.len(),
                sum == total_upto(self@, i as int),
            decreases self.shards.len() - i,
        {
            proof {
                lemma_total_monotone(self@, i + 1, self@.len() as int);
            }
            sum = sum + self.shards[i].len();
            i = i + 1;
        }
        sum
    }

    /// Whether every shard is empty.
    pub fn is_empty(&self) -> (r: bool)
        ensures
            r == (total(self@) == 0),
    {
        let mut i: usize = 0;
        while i < self.shards.len()
            invariant
                i <= self.shards.len(),
                forall|j: int| 0 <= j < i ==> #[trigger] self@[j].len() == 0,
            decreases self.shards.len() - i,
        {
            if !self.shards[i].is_empty() {
                proof {
                    lemma_total_monotone(self@, i + 1, self@.len() as int);
                }
                return false;
            }
            i = i + 1;
        }
        proof {
            lemma_total_zero(self@, self@.len() as int);
        }
        true
    }
}

impl<V> Default for ShardCollection<V> {
    /// A collection with a single empty shard.
    fn default() -> (c: Self)
        ensures
            c.wf(),
            c@ == Seq::new(1, |i: int| Seq::<V>::empty()),
            total(c@) == 0,
            c.ticket() == 0,
    {
        Self::new(1)
    }
}

/// The items of `v` in reverse order.
fn reversed<T>(v: Vec<T>) -> (r: Vec<T>)
    ensures
        r@ == v@.reverse(),
{
    let ghost orig = v@;
    let mut v = v;
    let mut r: Vec<T> = Vec::with_capacity(v.len());
    while v.len() > 0
        invariant
            v@ == orig.take(v@.len() as int),
            r@ == orig.skip(v@.len() as int).reverse(),
            v@.len() <= orig.len(),
        decreases v@.len(),
    {
        let x = v.pop().unwrap();
        proof {
            let k = v@.len() as int;
            assert(orig.skip(k).reverse() =~= orig.skip(k + 1).reverse().push(orig[k]));
        }
        r.push(x);
    }
    proof {
        assert(orig.skip(0) =~= orig);
    }
    r
}

/// Round-robin pushes add exactly their items to the total, and keep the shard count.
pub proof fn lemma_extend_total<V>(shards: Seq<Seq<V>>, ticket: usize, items: Seq<V>)
    requires
        shards.len() > 0,
    ensures
        extend_spec(shards, ticket, items).0.len() == shards.len(),
        total(extend_spec(shards, ticket, items).0) == total(shards) + items.len(),
    decreases items.len(),
{
    if items.len() > 0 {
        lemma_extend_total(shards, ticket, items.drop_last());
        let (s2, t2) = extend_spec(shards, ticket, items.drop_last());
        let n = s2.len() as int;
        let j = t2 as int % n;
        lemma_total_update(s2, j, s2[j].push(items.last()), n);
    }
}

/// Without shards, round-robin pushes change nothing.
proof fn lemma_extend_empty<V>(shards: Seq<Seq<V>>, ticket: usize, items: Seq<V>)
    requires
        shards.len() == 0,
    ensures
        extend_spec(shards, ticket, items) == (shards, ticket),
    decreases items.len(),
{
    if items.len() > 0 {
        lemma_extend_empty(shards, ticket, items.drop_last());
    }
}

/// A push never moves or drops an item: every shard keeps its items in place and may
/// only grow, so an index handed out earlier keeps naming the same item.
pub proof fn lemma_push_keeps_items<V>(shards: Seq<Seq<V>>, ticket: usize, item: V)
    ensures
        push_spec(shards, ticket, item).0.len() == shards.len(),
        forall|s: int| 0 <= s < shards.len() ==> shards[s].is_prefix_of(#[trigger] push_spec(shards, ticket, item).0[s]),
{
    let r = push_spec(shards, ticket, item).0;
    assert forall|s: int| 0 <= s < shards.len() implies shards[s].is_prefix_of(#[trigger] r[s]) by {
        assert(shards[s] =~= r[s].subrange(0, shards[s].len() as int));
    }
}

/// A push's item is found where the push said it went: at the old end of shard
/// `ticket % n`.
pub proof fn lemma_push_then_get<V>(shards: Seq<Seq<V>>, ticket: usize, item: V)
    requires
        shards.len() > 0,
    ensures
        ({
            let s = ticket as int % shards.len() as int;
            push_spec(shards, ticket, item).0[s][shards[s].len() as int] == item
        }),
{
}

/// Round-robin pushes never move or drop an item either.
pub proof fn lemma_extend_keeps_items<V>(shards: Seq<Seq<V>>, ticket: usize, items: Seq<V>)
    ensures
        extend_spec(shards, ticket, items).0.len() == shards.len(),
        forall|s: int| 0 <= s < shards.len() ==> shards[s].is_prefix_of(#[trigger] extend_spec(shards, ticket, items).0[s]),
    decreases items.len(),
{
    if items.len() > 0 {
        lemma_extend_keeps_items(shards, ticket, items.drop_last());
        let (s2, t2) = extend_spec(shards, ticket, items.drop_last());
        lemma_push_keeps_items(s2, t2, items.last());
        let r = extend_spec(shards, ticket, items).0;
        assert forall|s: int| 0 <= s < shards.len() implies shards[s].is_prefix_of(#[trigger] r[s]) by {
            assert(shards[s].is_prefix_of(s2[s]));
            assert(s2[s].is_prefix_of(r[s]));
            assert(shards[s] =~= r[s].subrange(0, shards[s].len() as int));
        }
    }
}

/// One of the `n` tickets drawn from `t` on lands on shard `s` of `n`.
pub open spec fn ticket_hits(t: usize, n: usize, s: int) -> bool {
    exists|h: int| 0 <= h < n && #[trigger] ticket_after(t, h) as int % n as int == s
}

/// Round-robin fairness: `n` consecutive tickets that do not wrap land on every one of
/// `n` shards exactly once.
pub proof fn lemma_round_robin_fair(t: usize, n: usize)
    requires
        n > 0,
        t + n <= usize::MAX + 1,
    ensures
        forall|s: int| 0 <= s < n ==> #[trigger] ticket_hits(t, n, s),
        forall|h1: int, h2: int|
            0 <= h1 < n && 0 <= h2 < n && h1 != h2 ==> #[trigger] ticket_after(t, h1) as int % n as int
                != #[trigger] ticket_after(t, h2) as int % n as int,
{
    let m = usize::MAX as int + 1;
    let ni = n as int;
    assert forall|h: int| 0 <= h < n implies #[trigger] ticket_after(t, h) == t + h by {
        lemma_small_mod((t + h) as nat, m as nat);
    }
    assert forall|s: int| 0 <= s < n implies #[trigger] ticket_hits(t, n, s) by {
        let q = t as int / ni;
        let r = t as int % ni;
        lemma_fundamental_div_mod(t as int, ni);
        let h = if s >= r { s - r } else { s + ni - r };
        let q2 = if s >= r { q } else { q + 1 };
        assert(t + h == q2 * ni + s) by (nonlinear_arith)
            requires
                t as int == ni * q + r,
                h == (if s >= r { s - r } else { s + ni - r }),
                q2 == (if s >= r { q } else { q + 1 });
        lemma_fundamental_div_mod_converse(t + h, ni, q2, s);
        assert(ticket_after(t, h) as int % ni == s);
    }
    assert forall|h1: int, h2: int|
        0 <= h1 < n && 0 <= h2 < n && h1 != h2 implies #[trigger] ticket_after(t, h1) as int % ni
            != #[trigger] ticket_after(t, h2) as int % ni by {
        let a = t + h1;
        let b = t + h2;
        lemma_fundamental_div_mod(a, ni);
        lemma_fundamental_div_mod(b, ni);
        if a % ni == b % ni {
            assert(false) by (nonlinear_arith)
                requires
                    a == ni * (a / ni) + a % ni,
                    b == ni * (b / ni) + b % ni,
                    a % ni == b % ni,
                    a != b,
                    -ni < a - b < ni,
                    ni > 0;
        }
    }
}

/// Reading a map after an insert or a removal: the inserted key reads as the inserted
/// value, a removed key is absent, and every other key reads as before. The keyed
/// structures state their changes as these `Map` operations on their views, so this is
/// what a read after a write gives wherever their contracts say the change happened.
pub proof fn lemma_read_after_write<K, V>(m: Map<K, V>, k: K, v: V, q: K)
    ensures
        m.insert(k, v).contains_key(k),
        m.insert(k, v)[k] == v,
        !m.remove(k).contains_key(k),
        q != k ==> m.insert(k, v).contains_key(q) == m.contains_key(q),
        q != k && m.contains_key(q) ==> m.insert(k, v)[q] == m[q],
        q != k ==> m.remove(k).contains_key(q) == m.contains_key(q),
        q != k && m.contains_key(q) ==> m.remove(k)[q] == m[q],
{
}

/// On a map, removing a key that an insert just added undoes the insert. The slot map's
/// inserts always add a key not held before, so removing that key restores its view.
pub proof fn lemma_remove_undoes_insert<K, V>(m: Map<K, V>, k: K, v: V)
    requires
        !m.contains_key(k),
    ensures
        m.insert(k, v).remove(k) == m,
{
    assert(m.insert(k, v).remove(k) =~= m);
}

} // verus!
