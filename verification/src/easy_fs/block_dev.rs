//! The block device that a file system lies on.
use vstd::prelude::*;

verus! {

/// The unit of I/O and of space management: a block has 512 bytes.
pub const BLOCK_SZ: usize = 512;

/// Every block has `BLOCK_SZ` bytes.
pub open spec fn full_blocks(blocks: Seq<Seq<u8>>) -> bool {
    forall|i: int| 0 <= i < blocks.len() ==> (#[trigger] blocks[i]).len() == BLOCK_SZ
}

/// Trait for block devices, which read and write data in the unit of blocks.
///
/// `blocks` is what the device holds at the moment; a read gives back what the
/// last write to the same block left there. It exists in proofs only: a driver
/// that is not verified itself leaves it as it stands here.
pub trait BlockDevice: Sized {
    /// The contents of the device, block by block.
    open spec fn blocks(&self) -> Seq<Seq<u8>> {
        arbitrary()
    }

    /// Read data from a block to a buffer.
    fn read_block(&self, block_id: usize, buf: &mut [u8])
        requires
            block_id < self.blocks().len(),
            old(buf)@.len() == BLOCK_SZ,
            self.blocks()[block_id as int].len() == BLOCK_SZ,
        ensures
            final(buf)@ == self.blocks()[block_id as int],
    ;

    /// Write data from a buffer to a block.
    fn write_block(&mut self, block_id: usize, buf: &[u8])
        requires
            block_id < old(self).blocks().len(),
            buf@.len() == BLOCK_SZ,
        ensures
            final(self).blocks() == old(self).blocks().update(block_id as int, buf@),
    ;
}

} // verus!
