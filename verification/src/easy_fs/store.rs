//! A block device behind its block cache.
use super::block_cache::{
    coherent, first_unheld, lemma_slot_is_logical, lemma_update_slot, logical, written_back,
    zero_block, BlockCacheManager, BLOCK_CACHE_SIZE,
};
use super::block_dev::{full_blocks, BlockDevice, BLOCK_SZ};
use super::bytes::{splice, Record};
use vstd::prelude::*;

verus! {

/// A block device and the blocks of it that are in memory.
///
/// The view is the blocks as they are read through the cache, which runs ahead of
/// the device until `block_cache_sync_all`.
pub struct BlockStore<D: BlockDevice> {
    device: D,
    manager: BlockCacheManager,
}

impl<D: BlockDevice> View for BlockStore<D> {
    type V = Seq<Seq<u8>>;

    closed spec fn view(&self) -> Seq<Seq<u8>> {
        logical(self.manager@, self.device.blocks())
    }
}

impl<D: BlockDevice> BlockStore<D> {
    /// The cache agrees with the device, and no block is held.
    pub closed spec fn inv(&self) -> bool {
        &&& coherent(self.manager@, self.device.blocks())
        &&& forall|k: int| 0 <= k < self.manager@.len() ==> (#[trigger] self.manager@[k]).holders
            == 0
    }

    /// The device holds what is read through the cache.
    pub closed spec fn synced(&self) -> bool {
        self.device.blocks() == self@
    }

    /// The blocks on the device itself.
    pub closed spec fn on_device(&self) -> Seq<Seq<u8>> {
        self.device.blocks()
    }

    /// Every block has `BLOCK_SZ` bytes, seen through the cache too.
    pub proof fn lemma_full_blocks(&self)
        requires
            self.inv(),
        ensures
            full_blocks(self@),
    {
        let q = self.manager@;
        let dev = self.device.blocks();
        assert forall|i: int| 0 <= i < self@.len() implies (#[trigger] self@[i]).len()
            == BLOCK_SZ by {
            if super::block_cache::cached(q, i) {
                let k = super::block_cache::slot_of(q, i);
                assert(q[k].cache@.block_id == i);
            }
        }
    }

    /// A device with nothing cached yet.
    pub fn new(device: D) -> (r: Self)
        requires
            full_blocks(device.blocks()),
        ensures
            r.inv(),
            r.synced(),
            r@ == device.blocks(),
            r.on_device() == device.blocks(),
    {
        let manager: BlockCacheManager = BlockCacheManager::new();
        assert(logical(manager@, device.blocks()) =~= device.blocks());
        BlockStore { device, manager }
    }

    /// Give the device back. Blocks that are still dirty are written to it first.
    pub fn into_device(self) -> (r: D)
        requires
            self.inv(),
        ensures
            r.blocks() == self@,
    {
        let mut this: Self = self;
        this.block_cache_sync_all();
        this.device
    }

    /// Bring a block into memory and hold it.
    fn get_block_cache(&mut self, block_id: usize) -> (idx: usize)
        requires
            old(self).inv(),
            block_id < old(self)@.len(),
        ensures
            final(self)@ == old(self)@,
            old(self).synced() ==> final(self).synced(),
            coherent(final(self).manager@, final(self).device.blocks()),
            idx < final(self).manager@.len(),
            final(self).manager@[idx as int].holders == 1,
            final(self).manager@[idx as int].cache@.block_id == block_id,
            forall|k: int|
                0 <= k < final(self).manager@.len() && k != idx ==> (
                #[trigger] final(self).manager@[k]).holders == 0,
    {
        let ghost q = self.manager@;
        let ghost dev = self.device.blocks();
        assert(q.len() == 0 || first_unheld(q, 0));
        let idx: usize = self.manager.get_block_cache(block_id, &mut self.device);
        proof {
            if old(self).synced() && self.device.blocks() != dev {
                let v = choose|v: int|
                    #[trigger] first_unheld(q, v) && self.device.blocks() == written_back(
                        q[v].cache@,
                        dev,
                    );
                lemma_slot_is_logical(q, dev, v);
                assert(dev.update(q[v].cache@.block_id, q[v].cache@.data) =~= dev);
            }
            let q2 = self.manager@;
            assert(forall|k: int| 0 <= k < q.len() ==> (#[trigger] q[k]).holders == 0);
            if super::block_cache::cached(q, block_id as int) {
                assert(q[idx as int].holders == 0);
            } else {
                assert(q2[idx as int] == q2.last());
                assert forall|k: int| 0 <= k < q2.len() && k != idx implies (
                #[trigger] q2[k]).holders == 0 by {
                    assert(q2[k] == q2.drop_last()[k]);
                    if q.len() == BLOCK_CACHE_SIZE {
                        let v = choose|v: int|
                            first_unheld(q, v) && q2.drop_last() == #[trigger] q.remove(v);
                        assert(q2.drop_last()[k] == q[if k < v {
                            k
                        } else {
                            k + 1
                        }]);
                    }
                }
            }
        }
        idx
    }

    /// Read the record at an offset of a block.
    pub fn read<T: Record>(&mut self, block_id: usize, offset: usize) -> (r: T)
        requires
            old(self).inv(),
            block_id < old(self)@.len(),
            offset + T::record_size() <= BLOCK_SZ,
        ensures
            final(self).inv(),
            final(self)@ == old(self)@,
            old(self).synced() ==> final(self).synced(),
            r@ == T::decode(
                old(self)@[block_id as int].subrange(offset as int, offset + T::record_size()),
            ),
    {
        let idx: usize = self.get_block_cache(block_id);
        proof {
            lemma_slot_is_logical(self.manager@, self.device.blocks(), idx as int);
        }
        let r: T = self.manager.cache(idx).get_ref::<T>(offset);
        self.release(idx);
        r
    }

    /// Write a record at an offset of a block.
    pub fn write<T: Record>(&mut self, block_id: usize, offset: usize, value: &T)
        requires
            old(self).inv(),
            block_id < old(self)@.len(),
            offset + T::record_size() <= BLOCK_SZ,
        ensures
            final(self).inv(),
            final(self)@ == old(self)@.update(
                block_id as int,
                splice(old(self)@[block_id as int], offset as int, T::encode(value@)),
            ),
            T::encode(value@).len() == T::record_size(),
            T::decode(T::encode(value@)) == value@,
    {
        let idx: usize = self.get_block_cache(block_id);
        let ghost q = self.manager@;
        proof {
            lemma_slot_is_logical(q, self.device.blocks(), idx as int);
        }
        self.manager.cache_mut(idx).get_mut::<T>(offset, value);
        proof {
            lemma_update_slot(q, self.manager@, self.device.blocks(), idx as int);
        }
        self.release(idx);
    }

    /// Copy bytes of a block into a buffer.
    pub fn read_bytes(
        &mut self,
        block_id: usize,
        offset: usize,
        buf: &mut [u8],
        at: usize,
        len: usize,
    )
        requires
            old(self).inv(),
            block_id < old(self)@.len(),
            offset + len <= BLOCK_SZ,
            at + len <= old(buf)@.len(),
        ensures
            final(self).inv(),
            final(self)@ == old(self)@,
            old(self).synced() ==> final(self).synced(),
            final(buf)@ == splice(
                old(buf)@,
                at as int,
                old(self)@[block_id as int].subrange(offset as int, offset + len),
            ),
    {
        let idx: usize = self.get_block_cache(block_id);
        proof {
            lemma_slot_is_logical(self.manager@, self.device.blocks(), idx as int);
        }
        self.manager.cache(idx).read_bytes(offset, buf, at, len);
        self.release(idx);
    }

    /// Copy bytes of a buffer into a block.
    pub fn write_bytes(
        &mut self,
        block_id: usize,
        offset: usize,
        buf: &[u8],
        from: usize,
        len: usize,
    )
        requires
            old(self).inv(),
            block_id < old(self)@.len(),
            offset + len <= BLOCK_SZ,
            from + len <= buf@.len(),
        ensures
            final(self).inv(),
            final(self)@ == old(self)@.update(
                block_id as int,
                splice(
                    old(self)@[block_id as int],
                    offset as int,
                    buf@.subrange(from as int, from + len),
                ),
            ),
    {
        let idx: usize = self.get_block_cache(block_id);
        let ghost q = self.manager@;
        proof {
            lemma_slot_is_logical(q, self.device.blocks(), idx as int);
        }
        self.manager.cache_mut(idx).write_bytes(offset, buf, from, len);
        proof {
            lemma_update_slot(q, self.manager@, self.device.blocks(), idx as int);
        }
        self.release(idx);
    }

    /// Set every byte of a block to zero.
    pub fn clear_block(&mut self, block_id: usize)
        requires
            old(self).inv(),
            block_id < old(self)@.len(),
        ensures
            final(self).inv(),
            final(self)@ == old(self)@.update(block_id as int, zero_block()),
    {
        let idx: usize = self.get_block_cache(block_id);
        let ghost q = self.manager@;
        self.manager.cache_mut(idx).clear();
        proof {
            lemma_update_slot(q, self.manager@, self.device.blocks(), idx as int);
        }
        self.release(idx);
    }

    /// Give the one held block back.
    fn release(&mut self, idx: usize)
        requires
            coherent(old(self).manager@, old(self).device.blocks()),
            idx < old(self).manager@.len(),
            old(self).manager@[idx as int].holders == 1,
            forall|k: int|
                0 <= k < old(self).manager@.len() && k != idx ==> (
                #[trigger] old(self).manager@[k]).holders == 0,
        ensures
            final(self).inv(),
            final(self)@ == old(self)@,
            old(self).synced() ==> final(self).synced(),
    {
        let ghost q = self.manager@;
        let ghost dev = self.device.blocks();
        self.manager.release(idx);
        proof {
            q[idx as int].cache.lemma_len();
            lemma_slot_is_logical(q, dev, idx as int);
            lemma_update_slot(q, self.manager@, dev, idx as int);
            assert(logical(q, dev).update(
                q[idx as int].cache@.block_id,
                q[idx as int].cache@.data,
            ) =~= logical(q, dev));
        }
    }

    /// Write every dirty block back to the device.
    pub fn block_cache_sync_all(&mut self)
        requires
            old(self).inv(),
        ensures
            final(self).inv(),
            final(self)@ == old(self)@,
            final(self).synced(),
            final(self).on_device() == old(self)@,
    {
        self.manager.sync_all(&mut self.device);
    }
}

} // verus!
