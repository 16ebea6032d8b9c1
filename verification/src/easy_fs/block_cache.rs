//! Blocks of a device kept in memory, written back when they leave.
use super::block_dev::{full_blocks, BlockDevice, BLOCK_SZ};
use super::bytes::{splice, Record};
use vstd::prelude::*;

verus! {

/// Use a block cache of 16 blocks.
pub const BLOCK_CACHE_SIZE: usize = 16;

/// Cached block inside memory.
pub struct BlockCache {
    /// Cached block data.
    cache: [u8; BLOCK_SZ],
    /// Underlying block id.
    block_id: usize,
    /// Whether the block is dirty.
    modified: bool,
}

/// What a cached block is: which block, with what bytes, and whether these bytes
/// are still to be written to the device.
pub struct CachedBlock {
    pub block_id: int,
    pub data: Seq<u8>,
    pub modified: bool,
}

impl View for BlockCache {
    type V = CachedBlock;

    closed spec fn view(&self) -> CachedBlock {
        CachedBlock {
            block_id: self.block_id as int,
            data: self.cache@,
            modified: self.modified,
        }
    }
}

impl BlockCache {
    /// Load a new BlockCache from disk.
    pub fn new<D: BlockDevice>(block_id: usize, block_device: &D) -> (r: Self)
        requires
            block_id < block_device.blocks().len(),
            full_blocks(block_device.blocks()),
        ensures
            r@ == (CachedBlock {
                block_id: block_id as int,
                data: block_device.blocks()[block_id as int],
                modified: false,
            }),
    {
        let mut cache: [u8; BLOCK_SZ] = [0u8; BLOCK_SZ];
        block_device.read_block(block_id, &mut cache);
        BlockCache { cache, block_id, modified: false }
    }

    /// The id of the block.
    pub fn id(&self) -> (r: usize)
        ensures
            r == self@.block_id,
    {
        self.block_id
    }

    /// A block has `BLOCK_SZ` bytes.
    pub proof fn lemma_len(&self)
        ensures
            self@.data.len() == BLOCK_SZ,
            0 <= self@.block_id <= usize::MAX,
    {
    }

    /// The record at an offset of the block.
    pub fn get_ref<T: Record>(&self, offset: usize) -> (r: T)
        requires
            offset + T::record_size() <= BLOCK_SZ,
        ensures
            r@ == T::decode(self@.data.subrange(offset as int, offset + T::record_size())),
    {
        let size: usize = T::size();
        let whole: &[u8] = &self.cache;
        let bytes: &[u8] = vstd::slice::slice_subrange(whole, offset, offset + size);
        T::from_bytes(bytes)
    }

    /// Put a record at an offset of the block, which becomes dirty.
    pub fn get_mut<T: Record>(&mut self, offset: usize, value: &T)
        requires
            offset + T::record_size() <= BLOCK_SZ,
        ensures
            final(self)@ == (CachedBlock {
                data: splice(old(self)@.data, offset as int, T::encode(value@)),
                modified: true,
                ..old(self)@
            }),
            T::encode(value@).len() == T::record_size(),
            T::decode(T::encode(value@)) == value@,
    {
        let bytes: Vec<u8> = value.to_bytes();
        self.write_bytes(offset, &bytes, 0, bytes.len());
        proof {
            assert(bytes@.subrange(0, bytes@.len() as int) =~= bytes@);
        }
    }

    /// Read the record at an offset and compute something from it.
    pub fn read<T: Record, V>(&self, offset: usize, f: impl FnOnce(&T) -> V) -> (r: V)
        requires
            offset + T::record_size() <= BLOCK_SZ,
            forall|t: T|
                t@ == T::decode(self@.data.subrange(offset as int, offset + T::record_size()))
                    ==> call_requires(f, (&t,)),
        ensures
            exists|t: T|
                t@ == T::decode(self@.data.subrange(offset as int, offset + T::record_size()))
                    && call_ensures(f, (&t,), r),
    {
        let t: T = self.get_ref::<T>(offset);
        f(&t)
    }

    /// Replace the record at an offset by what a function makes of it, and compute
    /// something besides.
    pub fn modify<T: Record, V>(&mut self, offset: usize, f: impl FnOnce(T) -> (T, V)) -> (r: V)
        requires
            offset + T::record_size() <= BLOCK_SZ,
            forall|t: T|
                t@ == T::decode(old(self)@.data.subrange(offset as int, offset + T::record_size()))
                    ==> call_requires(f, (t,)),
        ensures
            exists|t: T, u: T|
                {
                    &&& t@ == T::decode(
                        old(self)@.data.subrange(offset as int, offset + T::record_size()),
                    )
                    &&& #[trigger] call_ensures(f, (t,), (u, r))
                    &&& final(self)@ == (CachedBlock {
                        data: splice(old(self)@.data, offset as int, T::encode(u@)),
                        modified: true,
                        ..old(self)@
                    })
                },
    {
        let t: T = self.get_ref::<T>(offset);
        let (u, v) = f(t);
        self.get_mut::<T>(offset, &u);
        v
    }

    /// Copy `len` bytes from byte `offset` of the block into `buf` at `at`.
    pub fn read_bytes(&self, offset: usize, buf: &mut [u8], at: usize, len: usize)
        requires
            offset + len <= BLOCK_SZ,
            at + len <= old(buf)@.len(),
        ensures
            final(buf)@ == splice(
                old(buf)@,
                at as int,
                self@.data.subrange(offset as int, offset + len),
            ),
    {
        let ghost src = self@.data.subrange(offset as int, offset + len);
        let n: usize = buf.len();
        let mut k: usize = 0;
        while k < len
            invariant
                k <= len,
                offset + len <= BLOCK_SZ,
                n == old(buf)@.len(),
                at + len <= n,
                src == self@.data.subrange(offset as int, offset + len),
                buf@ == splice(old(buf)@, at as int, src.take(k as int)),
            decreases len - k,
        {
            buf[at + k] = self.cache[offset + k];
            k = k + 1;
            assert(buf@ =~= splice(old(buf)@, at as int, src.take(k as int)));
        }
        assert(src.take(len as int) =~= src);
    }

    /// Copy `len` bytes of `buf` from `from` on to byte `offset` of the block, which
    /// becomes dirty.
    pub fn write_bytes(&mut self, offset: usize, buf: &[u8], from: usize, len: usize)
        requires
            offset + len <= BLOCK_SZ,
            from + len <= buf@.len(),
        ensures
            final(self)@ == (CachedBlock {
                data: splice(
                    old(self)@.data,
                    offset as int,
                    buf@.subrange(from as int, from + len),
                ),
                modified: true,
                ..old(self)@
            }),
    {
        let ghost src = buf@.subrange(from as int, from + len);
        let n: usize = buf.len();
        self.modified = true;
        let mut k: usize = 0;
        while k < len
            invariant
                k <= len,
                offset + len <= BLOCK_SZ,
                n == buf@.len(),
                from + len <= n,
                src == buf@.subrange(from as int, from + len),
                self.modified,
                self.block_id == old(self).block_id,
                self.cache@ == splice(old(self).cache@, offset as int, src.take(k as int)),
            decreases len - k,
        {
            self.cache[offset + k] = buf[from + k];
            k = k + 1;
            assert(self.cache@ =~= splice(old(self).cache@, offset as int, src.take(k as int)));
        }
        assert(src.take(len as int) =~= src);
    }

    /// Set every byte of the block to zero.
    pub fn clear(&mut self)
        ensures
            final(self)@ == (CachedBlock {
                data: zero_block(),
                modified: true,
                ..old(self)@
            }),
    {
        self.modified = true;
        let mut k: usize = 0;
        while k < BLOCK_SZ
            invariant
                k <= BLOCK_SZ,
                self.modified,
                self.block_id == old(self).block_id,
                forall|j: int| 0 <= j < k ==> self.cache@[j] == 0,
            decreases BLOCK_SZ - k,
        {
            self.cache[k] = 0;
            k = k + 1;
        }
        assert(self.cache@ =~= zero_block());
    }

    /// Write the block back to the device if it is dirty.
    pub fn sync<D: BlockDevice>(&mut self, block_device: &mut D)
        requires
            old(self)@.block_id < old(block_device).blocks().len(),
        ensures
            final(self)@ == (CachedBlock { modified: false, ..old(self)@ }),
            final(block_device).blocks() == if old(self)@.modified {
                old(block_device).blocks().update(old(self)@.block_id, old(self)@.data)
            } else {
                old(block_device).blocks()
            },
    {
        if self.modified {
            self.modified = false;
            let whole: &[u8] = &self.cache;
            block_device.write_block(self.block_id, whole);
        }
    }
}

/// A block of zero bytes.
pub open spec fn zero_block() -> Seq<u8> {
    Seq::new(BLOCK_SZ as nat, |i: int| 0u8)
}

/// A cached block and the number of users that hold it at the moment.
pub struct CacheSlot {
    pub cache: BlockCache,
    pub holders: usize,
}

/// Some slot holds block `id`.
pub open spec fn cached(q: Seq<CacheSlot>, id: int) -> bool {
    exists|k: int| 0 <= k < q.len() && (#[trigger] q[k]).cache@.block_id == id
}

/// The slot that holds block `id`.
pub open spec fn slot_of(q: Seq<CacheSlot>, id: int) -> int {
    choose|k: int| 0 <= k < q.len() && (#[trigger] q[k]).cache@.block_id == id
}

/// `k` is the first slot that nobody holds.
pub open spec fn first_unheld(q: Seq<CacheSlot>, k: int) -> bool {
    &&& 0 <= k < q.len()
    &&& q[k].holders == 0
    &&& forall|j: int| 0 <= j < k ==> (#[trigger] q[j]).holders > 0
}

/// No block is cached twice, every cached block is one of the device, and a clean
/// one has the bytes that the device has.
pub open spec fn coherent(q: Seq<CacheSlot>, dev: Seq<Seq<u8>>) -> bool {
    &&& q.len() <= BLOCK_CACHE_SIZE
    &&& full_blocks(dev)
    &&& forall|k: int|
        0 <= k < q.len() ==> {
            &&& 0 <= (#[trigger] q[k]).cache@.block_id < dev.len()
            &&& q[k].cache@.data.len() == BLOCK_SZ
            &&& !q[k].cache@.modified ==> q[k].cache@.data == dev[q[k].cache@.block_id]
        }
    &&& forall|j: int, k: int|
        0 <= j < q.len() && 0 <= k < q.len() && (#[trigger] q[j]).cache@.block_id == (
        #[trigger] q[k]).cache@.block_id ==> j == k
}

/// The blocks as a user of the cache sees them: the cached bytes where a block is
/// cached, the bytes of the device elsewhere.
pub open spec fn logical(q: Seq<CacheSlot>, dev: Seq<Seq<u8>>) -> Seq<Seq<u8>> {
    Seq::new(
        dev.len(),
        |i: int|
            if cached(q, i) {
                q[slot_of(q, i)].cache@.data
            } else {
                dev[i]
            },
    )
}

/// The device after a block has left the cache.
pub open spec fn written_back(c: CachedBlock, dev: Seq<Seq<u8>>) -> Seq<Seq<u8>> {
    if c.modified {
        dev.update(c.block_id, c.data)
    } else {
        dev
    }
}

/// In a coherent cache a slot's bytes are what a user sees of its block.
pub proof fn lemma_slot_is_logical(q: Seq<CacheSlot>, dev: Seq<Seq<u8>>, k: int)
    requires
        coherent(q, dev),
        0 <= k < q.len(),
    ensures
        logical(q, dev)[q[k].cache@.block_id] == q[k].cache@.data,
        cached(q, q[k].cache@.block_id),
        slot_of(q, q[k].cache@.block_id) == k,
{
    assert(q[k].cache@.block_id == q[k].cache@.block_id);
}

/// Replacing the bytes of one slot replaces what a user sees of its block, and of
/// no other.
pub proof fn lemma_update_slot(q: Seq<CacheSlot>, q2: Seq<CacheSlot>, dev: Seq<Seq<u8>>, k: int)
    requires
        coherent(q, dev),
        0 <= k < q.len(),
        q2.len() == q.len(),
        forall|j: int| 0 <= j < q.len() && j != k ==> (#[trigger] q2[j]).cache@ == q[j].cache@,
        q2[k].cache@.block_id == q[k].cache@.block_id,
        q2[k].cache@.data.len() == BLOCK_SZ,
        q2[k].cache@.modified || q2[k].cache@ == q[k].cache@,
    ensures
        coherent(q2, dev),
        logical(q2, dev) == logical(q, dev).update(q[k].cache@.block_id, q2[k].cache@.data),
{
    assert forall|j: int| 0 <= j < q.len() implies (#[trigger] q2[j]).cache@.block_id
        == q[j].cache@.block_id by {
        if j != k {
        }
    }
    assert(coherent(q2, dev));
    let l = logical(q, dev);
    let l2 = logical(q2, dev);
    assert forall|i: int| 0 <= i < dev.len() implies l2[i] == l.update(
        q[k].cache@.block_id,
        q2[k].cache@.data,
    )[i] by {
        if cached(q, i) {
            let j = slot_of(q, i);
            lemma_slot_is_logical(q, dev, j);
            assert(q2[j].cache@.block_id == i);
            lemma_slot_is_logical(q2, dev, j);
        } else if cached(q2, i) {
            let j = slot_of(q2, i);
            assert(q[j].cache@.block_id == i);
        }
    }
    assert(l2 =~= l.update(q[k].cache@.block_id, q2[k].cache@.data));
}

/// A block that leaves the cache and is written back leaves what a user sees as it
/// was.
pub proof fn lemma_evict(q: Seq<CacheSlot>, dev: Seq<Seq<u8>>, v: int)
    requires
        coherent(q, dev),
        0 <= v < q.len(),
    ensures
        coherent(q.remove(v), written_back(q[v].cache@, dev)),
        logical(q.remove(v), written_back(q[v].cache@, dev)) == logical(q, dev),
        !cached(q.remove(v), q[v].cache@.block_id),
        forall|i: int| cached(q.remove(v), i) ==> cached(q, i),
{
    let r = q.remove(v);
    let dev2 = written_back(q[v].cache@, dev);
    let id = q[v].cache@.block_id;
    assert forall|j: int| 0 <= j < r.len() implies #[trigger] r[j] == q[if j < v {
        j
    } else {
        j + 1
    }] by {}
    assert forall|i: int| cached(r, i) implies cached(q, i) && i != id by {
        let j = slot_of(r, i);
        assert(r[j].cache@.block_id == i);
        let jj = if j < v {
            j
        } else {
            j + 1
        };
        assert(q[jj].cache@.block_id == i);
    }
    assert(coherent(r, dev2));
    let l = logical(q, dev);
    let l2 = logical(r, dev2);
    assert forall|i: int| 0 <= i < dev.len() implies l2[i] == l[i] by {
        if i == id {
            lemma_slot_is_logical(q, dev, v);
            assert(!cached(r, i));
        } else if cached(q, i) {
            let j = slot_of(q, i);
            lemma_slot_is_logical(q, dev, j);
            let jj = if j < v {
                j
            } else {
                j - 1
            };
            assert(r[jj] == q[j]);
            lemma_slot_is_logical(r, dev2, jj);
        } else {
            assert(!cached(r, i));
        }
    }
    assert(l2 =~= l);
}

/// A block that is loaded from the device leaves what a user sees as it was.
pub proof fn lemma_load(q: Seq<CacheSlot>, dev: Seq<Seq<u8>>, s: CacheSlot)
    requires
        coherent(q, dev),
        q.len() < BLOCK_CACHE_SIZE,
        !cached(q, s.cache@.block_id),
        0 <= s.cache@.block_id < dev.len(),
        !s.cache@.modified,
        s.cache@.data == dev[s.cache@.block_id],
    ensures
        coherent(q.push(s), dev),
        logical(q.push(s), dev) == logical(q, dev),
{
    let q2 = q.push(s);
    assert forall|j: int| 0 <= j < q.len() implies q[j].cache@.block_id != s.cache@.block_id by {
        assert(q[j].cache@.block_id == q[j].cache@.block_id);
    }
    assert(coherent(q2, dev));
    let l = logical(q, dev);
    let l2 = logical(q2, dev);
    assert forall|i: int| 0 <= i < dev.len() implies l2[i] == l[i] by {
        if i == s.cache@.block_id {
            assert(q2[q.len() as int] == s);
            lemma_slot_is_logical(q2, dev, q.len() as int);
        } else if cached(q, i) {
            let j = slot_of(q, i);
            lemma_slot_is_logical(q, dev, j);
            assert(q2[j] == q[j]);
            lemma_slot_is_logical(q2, dev, j);
        } else if cached(q2, i) {
            let j = slot_of(q2, i);
            assert(q2[j].cache@.block_id == i);
            assert(q[j].cache@.block_id == i);
        }
    }
    assert(l2 =~= l);
}

/// The blocks of one device that are in memory, in the order in which they came.
pub struct BlockCacheManager {
    queue: Vec<CacheSlot>,
}

impl View for BlockCacheManager {
    type V = Seq<CacheSlot>;

    closed spec fn view(&self) -> Seq<CacheSlot> {
        self.queue@
    }
}

impl BlockCacheManager {
    /// A cache with no block in it.
    pub fn new() -> (r: Self)
        ensures
            r@ == Seq::<CacheSlot>::empty(),
    {
        BlockCacheManager { queue: Vec::new() }
    }

    /// Hold the block with the given id: the block in the cache if it is there, else
    /// a copy loaded from the device at the tail of the queue. If the cache is full
    /// then, the first block from the front that nobody holds leaves, and is written
    /// back if it is dirty.
    pub fn get_block_cache<D: BlockDevice>(
        &mut self,
        block_id: usize,
        block_device: &mut D,
    ) -> (idx: usize)
        requires
            coherent(old(self)@, old(block_device).blocks()),
            block_id < old(block_device).blocks().len(),
            cached(old(self)@, block_id as int) || old(self)@.len() < BLOCK_CACHE_SIZE || exists|
                k: int,
            |
                first_unheld(old(self)@, k),
            forall|k: int| 0 <= k < old(self)@.len() ==> (#[trigger] old(self)@[k]).holders
                < usize::MAX,
        ensures
            idx < final(self)@.len(),
            final(self)@[idx as int].cache@.block_id == block_id,
            coherent(final(self)@, final(block_device).blocks()),
            logical(final(self)@, final(block_device).blocks()) == logical(
                old(self)@,
                old(block_device).blocks(),
            ),
            final(block_device).blocks().len() == old(block_device).blocks().len(),
            cached(old(self)@, block_id as int) ==> {
                let s = old(self)@[idx as int];
                &&& idx < old(self)@.len()
                &&& s.cache@.block_id == block_id
                &&& final(self)@ == old(self)@.update(
                    idx as int,
                    CacheSlot { cache: s.cache, holders: (s.holders + 1) as usize },
                )
                &&& final(block_device).blocks() == old(block_device).blocks()
            },
            !cached(old(self)@, block_id as int) && old(self)@.len() < BLOCK_CACHE_SIZE ==> {
                &&& final(self)@.len() == old(self)@.len() + 1
                &&& final(self)@.drop_last() == old(self)@
                &&& final(self)@.last().holders == 1
                &&& final(block_device).blocks() == old(block_device).blocks()
            },
            !cached(old(self)@, block_id as int) && old(self)@.len() == BLOCK_CACHE_SIZE ==> exists|
                k: int,
            |
                {
                    &&& #[trigger] first_unheld(old(self)@, k)
                    &&& final(self)@.len() == old(self)@.len()
                    &&& final(self)@.drop_last() == old(self)@.remove(k)
                    &&& final(self)@.last().holders == 1
                    &&& final(block_device).blocks() == written_back(
                        old(self)@[k].cache@,
                        old(block_device).blocks(),
                    )
                },
            !cached(old(self)@, block_id as int) ==> idx == final(self)@.len() - 1,
    {
        let ghost q0 = self.queue@;
        let ghost dev0 = block_device.blocks();
        let mut i: usize = 0;
        while i < self.queue.len()
            invariant
                i <= self.queue@.len(),
                self.queue@ == q0,
                forall|j: int| 0 <= j < i ==> (#[trigger] q0[j]).cache@.block_id != block_id,
                coherent(q0, dev0),
                block_device.blocks() == dev0,
                forall|k: int| 0 <= k < q0.len() ==> (#[trigger] q0[k]).holders < usize::MAX,
                *self == *old(self),
                q0 == old(self)@,
                dev0 == old(block_device).blocks(),
            decreases self.queue@.len() - i,
        {
            if self.queue[i].cache.id() == block_id {
                assert(q0[i as int].cache@.block_id == block_id);
                assert(cached(q0, block_id as int));
                self.queue[i].holders = self.queue[i].holders + 1;
                proof {
                    let s = q0[i as int];
                    assert(self.queue@ =~= q0.update(
                        i as int,
                        CacheSlot { cache: s.cache, holders: (s.holders + 1) as usize },
                    ));
                    lemma_slot_is_logical(q0, dev0, i as int);
                    s.cache.lemma_len();
                    lemma_update_slot(q0, self.queue@, dev0, i as int);
                    assert(logical(q0, dev0).update(block_id as int, s.cache@.data) =~= logical(
                        q0,
                        dev0,
                    ));
                }
                return i;
            }
            i = i + 1;
        }
        assert(!cached(q0, block_id as int));
        // substitute
        let ghost mut v: int = 0;
        if self.queue.len() == BLOCK_CACHE_SIZE {
            // from front to tail
            let ghost w = choose|k: int| first_unheld(q0, k);
            let mut k: usize = 0;
            while self.queue[k].holders != 0
                invariant
                    0 <= k <= w < q0.len(),
                    q0.len() == BLOCK_CACHE_SIZE,
                    self.queue@ == q0,
                    first_unheld(q0, w),
                    forall|j: int| 0 <= j < k ==> (#[trigger] q0[j]).holders > 0,
                decreases q0.len() - k,
            {
                assert(k != w);
                k = k + 1;
            }
            let mut slot: CacheSlot = self.queue.remove(k);
            slot.cache.sync(block_device);
            proof {
                v = k as int;
                assert(first_unheld(q0, v));
                lemma_evict(q0, dev0, v);
                assert(self.queue@ == q0.remove(v));
                assert(block_device.blocks() == written_back(q0[v].cache@, dev0));
            }
        }
        // load block into mem and push back
        assert(!cached(self.queue@, block_id as int));
        let ghost q1 = self.queue@;
        let block_cache: BlockCache = BlockCache::new(block_id, block_device);
        let slot: CacheSlot = CacheSlot { cache: block_cache, holders: 1 };
        proof {
            lemma_load(q1, block_device.blocks(), slot);
        }
        self.queue.push(slot);
        assert(self.queue@.drop_last() =~= q1);
        self.queue.len() - 1
    }

    /// Give a held block back.
    pub fn release(&mut self, idx: usize)
        requires
            idx < old(self)@.len(),
            old(self)@[idx as int].holders > 0,
        ensures
            final(self)@ == old(self)@.update(
                idx as int,
                CacheSlot {
                    cache: old(self)@[idx as int].cache,
                    holders: (old(self)@[idx as int].holders - 1) as usize,
                },
            ),
    {
        self.queue[idx].holders = self.queue[idx].holders - 1;
        assert(self.queue@ =~= old(self)@.update(
            idx as int,
            CacheSlot {
                cache: old(self)@[idx as int].cache,
                holders: (old(self)@[idx as int].holders - 1) as usize,
            },
        ));
    }

    /// Write every dirty block back to the device.
    pub fn sync_all<D: BlockDevice>(&mut self, block_device: &mut D)
        requires
            coherent(old(self)@, old(block_device).blocks()),
        ensures
            coherent(final(self)@, final(block_device).blocks()),
            final(block_device).blocks() == logical(old(self)@, old(block_device).blocks()),
            logical(final(self)@, final(block_device).blocks()) == logical(
                old(self)@,
                old(block_device).blocks(),
            ),
            final(self)@.len() == old(self)@.len(),
            forall|k: int|
                0 <= k < final(self)@.len() ==> {
                    &&& (#[trigger] final(self)@[k]).cache@ == (CachedBlock {
                        modified: false,
                        ..old(self)@[k].cache@
                    })
                    &&& final(self)@[k].holders == old(self)@[k].holders
                },
    {
        let ghost q0 = self.queue@;
        let ghost dev0 = block_device.blocks();
        let ghost l0 = logical(q0, dev0);
        let mut i: usize = 0;
        while i < self.queue.len()
            invariant
                i <= self.queue@.len(),
                self.queue@.len() == q0.len(),
                coherent(q0, dev0),
                coherent(self.queue@, block_device.blocks()),
                logical(self.queue@, block_device.blocks()) == l0,
                l0 == logical(q0, dev0),
                block_device.blocks().len() == dev0.len(),
                forall|k: int| 0 <= k < i ==> (#[trigger] self.queue@[k]).cache@ == (CachedBlock {
                    modified: false,
                    ..q0[k].cache@
                }),
                forall|k: int| i <= k < q0.len() ==> (#[trigger] self.queue@[k]).cache@
                    == q0[k].cache@,
                forall|k: int| 0 <= k < q0.len() ==> (#[trigger] self.queue@[k]).holders
                    == q0[k].holders,
                forall|b: int|
                    0 <= b < dev0.len() && !cached(q0, b) ==> block_device.blocks()[b] == dev0[b],
            decreases self.queue@.len() - i,
        {
            let ghost q1 = self.queue@;
            let ghost dev1 = block_device.blocks();
            self.queue[i].cache.sync(block_device);
            proof {
                let q2 = self.queue@;
                let dev2 = block_device.blocks();
                let id = q1[i as int].cache@.block_id;
                q1[i as int].cache.lemma_len();
                lemma_slot_is_logical(q1, dev1, i as int);
                assert(dev2 == written_back(q1[i as int].cache@, dev1));
                assert(q0[i as int].cache@.block_id == id);
                assert(cached(q0, id));
                assert forall|k: int| 0 <= k < q2.len() implies (#[trigger] q2[k]).cache@.block_id
                    == q1[k].cache@.block_id && q2[k].cache@.data == q1[k].cache@.data by {
                    if k != i {
                        assert(q2[k] == q1[k]);
                    }
                }
                assert(coherent(q2, dev2));
                assert forall|b: int| 0 <= b < dev1.len() implies logical(q2, dev2)[b] == l0[b] by {
                    if cached(q1, b) {
                        let k = slot_of(q1, b);
                        lemma_slot_is_logical(q1, dev1, k);
                        assert(q2[k].cache@.block_id == b);
                        lemma_slot_is_logical(q2, dev2, k);
                    } else {
                        if cached(q2, b) {
                            let k = slot_of(q2, b);
                            assert(q1[k].cache@.block_id == b);
                        }
                        assert(q1[i as int].cache@.block_id != b);
                    }
                }
                assert(logical(q2, dev2) =~= l0);
            }
            i = i + 1;
        }
        proof {
            let q2 = self.queue@;
            let dev2 = block_device.blocks();
            assert forall|b: int| 0 <= b < dev2.len() implies dev2[b] == l0[b] by {
                if cached(q0, b) {
                    let k = slot_of(q0, b);
                    lemma_slot_is_logical(q0, dev0, k);
                    assert(q2[k].cache@.block_id == b);
                }
            }
            assert(dev2 =~= l0);
        }
    }

    /// The bytes of a held block, to be read.
    pub fn cache(&self, idx: usize) -> (r: &BlockCache)
        requires
            idx < self@.len(),
        ensures
            *r == self@[idx as int].cache,
    {
        &self.queue[idx].cache
    }

    /// The bytes of a held block, to be changed.
    pub fn cache_mut(&mut self, idx: usize) -> (r: &mut BlockCache)
        requires
            idx < old(self)@.len(),
        ensures
            *r == old(self)@[idx as int].cache,
            final(self)@ == old(self)@.update(
                idx as int,
                CacheSlot { cache: *final(r), holders: old(self)@[idx as int].holders },
            ),
    {
        &mut self.queue[idx].cache
    }
}

/// A block device behind its cache: the slots of the cache and the blocks on the device.
pub struct Cached {
    pub slots: Seq<CacheSlot>,
    pub blocks: Seq<Seq<u8>>,
}

impl Cached {
    /// The cache agrees with the device.
    pub open spec fn ok(self) -> bool {
        coherent(self.slots, self.blocks)
    }

    /// The blocks as they are read through the cache.
    pub open spec fn seen(self) -> Seq<Seq<u8>> {
        logical(self.slots, self.blocks)
    }
}

/// The caches of several devices do not mix, though they hold blocks with the same number.
/// Every slot has the bytes of the block of its own device. When a block in the cache of
/// device `i` gets new bytes, that block of that device reads as the new bytes, and every
/// other block, on this device and on the others, reads as before. When the block leaves the
/// cache, it is written to its own device and to nothing else there, and everything reads as
/// just before.
pub proof fn law_devices_apart(stores: Seq<Cached>, i: int, k: int, slots: Seq<CacheSlot>)
    requires
        forall|j: int| 0 <= j < stores.len() ==> (#[trigger] stores[j]).ok(),
        0 <= i < stores.len(),
        0 <= k < stores[i].slots.len(),
        slots == stores[i].slots.update(k, slots[k]),
        slots[k].cache@.block_id == stores[i].slots[k].cache@.block_id,
        slots[k].cache@.data.len() == BLOCK_SZ,
        slots[k].cache@.modified,
    ensures
        ({
            let blocks = stores[i].blocks;
            let c = slots[k].cache@;
            let written = stores.update(i, Cached { slots, blocks });
            let evicted = stores.update(
                i,
                Cached { slots: slots.remove(k), blocks: blocks.update(c.block_id, c.data) },
            );
            &&& blocks.update(c.block_id, c.data) == written_back(c, blocks)
            &&& forall|j: int|
                0 <= j < stores.len() ==> (#[trigger] written[j]).ok() && (
                #[trigger] evicted[j]).ok() && evicted[j].seen() == written[j].seen()
            &&& written[i].seen() == stores[i].seen().update(c.block_id, c.data)
            &&& forall|j: int|
                0 <= j < stores.len() && j != i ==> #[trigger] written[j].seen()
                    == stores[j].seen() && evicted[j].blocks == stores[j].blocks
            &&& forall|j: int, s: int|
                0 <= j < stores.len() && 0 <= s < stores[j].slots.len() ==> ({
                    let x = #[trigger] stores[j].slots[s];
                    x.cache@.data == stores[j].seen()[x.cache@.block_id]
                })
        }),
{
    let q = stores[i].slots;
    let blocks = stores[i].blocks;
    let c = slots[k].cache@;
    let written = stores.update(i, Cached { slots, blocks });
    let evicted = stores.update(
        i,
        Cached { slots: slots.remove(k), blocks: blocks.update(c.block_id, c.data) },
    );
    assert(stores[i].ok());
    lemma_update_slot(q, slots, blocks, k);
    lemma_evict(slots, blocks, k);
    assert forall|j: int| 0 <= j < stores.len() implies (#[trigger] written[j]).ok() && (
    #[trigger] evicted[j]).ok() && evicted[j].seen() == written[j].seen() by {
        assert(stores[j].ok());
    }
    assert forall|j: int, s: int|
        0 <= j < stores.len() && 0 <= s < stores[j].slots.len() implies ({
        let x = #[trigger] stores[j].slots[s];
        x.cache@.data == stores[j].seen()[x.cache@.block_id]
    }) by {
        assert(stores[j].ok());
        lemma_slot_is_logical(stores[j].slots, stores[j].blocks, s);
    }
}

} // verus!
