//! The file system as a whole: where its areas lie, and how inodes and blocks of data
//! are handed out.
use super::bitmap::{bit, lemma_with_bit, with_bit, Bitmap, BLOCK_BITS};
use super::block_cache::zero_block;
use super::block_dev::{full_blocks, BlockDevice, BLOCK_SZ};
use super::bytes::{lemma_splice_same, Record};
use super::disk::{
    clear_below, data_area, data_bitmap, disk_ok, free_data, geometry_ok, in_data_area, inode,
    inode_area, inode_exists, inode_offset, lemma_areas, lemma_bits_same, lemma_new_inode,
    lemma_same_super, live, put_inode, super_block, taken,
};
use super::layout::{
    empty_inode, DiskInode, DiskInodeType, EntryModel, SuperBlock, DISK_INODE_SZ, EFS_MAGIC,
};
use super::store::BlockStore;
use super::tree::{entries, lemma_fresh_tree, tree_ok};
use super::vfs::Inode;
use vstd::prelude::*;

verus! {

/// An easy file system on blocks.
pub struct EasyFileSystem<D: BlockDevice> {
    /// The device, seen through the block cache.
    pub block_device: BlockStore<D>,
    /// Which inodes are allocated.
    pub inode_bitmap: Bitmap,
    /// Which blocks of the data area are allocated.
    pub data_bitmap: Bitmap,
    /// The first block of the inode area.
    pub inode_area_start_block: u32,
    /// The first block of the data area.
    pub data_area_start_block: u32,
}

impl<D: BlockDevice> View for EasyFileSystem<D> {
    type V = Seq<Seq<u8>>;

    /// The blocks of the disk.
    open spec fn view(&self) -> Seq<Seq<u8>> {
        self.block_device@
    }
}

/// The blocks that the inodes of so many bitmap blocks take, three to a block.
pub open spec fn inode_blocks(inode_bitmap_blocks: u32) -> int {
    (inode_bitmap_blocks * 4096 + 2) / 3
}

/// How a new file system divides a disk.
pub open spec fn planned(total_blocks: u32, inode_bitmap_blocks: u32) -> SuperBlock {
    let inode_area_blocks = inode_blocks(inode_bitmap_blocks);
    let rest = total_blocks - 1 - inode_bitmap_blocks - inode_area_blocks;
    let data_bitmap_blocks = (rest + 4096) / 4097;
    SuperBlock {
        magic: EFS_MAGIC,
        total_blocks,
        inode_bitmap_blocks,
        inode_area_blocks: inode_area_blocks as u32,
        data_bitmap_blocks: data_bitmap_blocks as u32,
        data_area_blocks: (rest - data_bitmap_blocks) as u32,
    }
}

/// A disk can be divided so: there is an inode, the areas fit, and the numbers do not
/// overflow.
pub open spec fn plannable(total_blocks: u32, inode_bitmap_blocks: u32) -> bool {
    let inode_area_blocks = inode_blocks(inode_bitmap_blocks);
    &&& inode_bitmap_blocks >= 1
    &&& inode_bitmap_blocks * 4096 <= u32::MAX
    &&& 1 + inode_bitmap_blocks + inode_area_blocks <= total_blocks
    &&& total_blocks - 1 - inode_bitmap_blocks - inode_area_blocks + 4096 <= u32::MAX
}

/// A block of zero bytes has no bit set.
proof fn lemma_zero_bit(d: Seq<Seq<u8>>, start: int, k: int)
    requires
        d[start + k / 4096] == zero_block(),
        0 <= k,
    ensures
        !bit(d, start, k),
{
    let i = (k % 64) as u64;
    assert((0u64 >> i) & 1 == 0) by (bit_vector);
    let z = zero_block();
    let q = (k % 4096) / 64;
    assert(0 <= 8 * q <= 504);
    assert(super::bytes::le64(z, 8 * q) == 0) by {
        assert(forall|j: int| 0 <= j < 512 ==> z[j] == 0);
    }
}

/// A bitmap of zero bytes has as many clear bits as bits.
proof fn lemma_all_clear(d: Seq<Seq<u8>>, start: int, n: int)
    requires
        0 <= n,
        forall|k: int| 0 <= k < n ==> !#[trigger] bit(d, start, k),
    ensures
        clear_below(d, start, n) == n,
    decreases n,
{
    if n > 0 {
        lemma_all_clear(d, start, n - 1);
        assert(!bit(d, start, n - 1));
    }
}

/// A disk of zero blocks behind a super block is a consistent file system without
/// inodes.
proof fn lemma_blank(d: Seq<Seq<u8>>, total_blocks: u32, inode_bitmap_blocks: u32)
    requires
        plannable(total_blocks, inode_bitmap_blocks),
        full_blocks(d),
        total_blocks <= d.len(),
        super_block(d) == planned(total_blocks, inode_bitmap_blocks),
        forall|b: int| 1 <= b < total_blocks ==> #[trigger] d[b] == zero_block(),
    ensures
        disk_ok(d),
        forall|id: int| !#[trigger] live(d, id),
        forall|b: int| #[trigger] in_data_area(d, b) ==> !taken(d, b),
        free_data(d) == super_block(d).data_area_blocks,
        forall|id: int|
            0 <= id < inode_bitmap_blocks * 4096 ==> #[trigger] inode_exists(d, id),
        forall|k: int|
            0 <= k < super_block(d).data_bitmap_blocks * 4096 ==> !#[trigger] bit(
                d,
                data_bitmap(super_block(d)),
                k,
            ),
{
    reveal(disk_ok);
    let s = super_block(d);
    let ia = inode_blocks(inode_bitmap_blocks);
    let rest = total_blocks - 1 - inode_bitmap_blocks - ia;
    let db = (rest + 4096) / 4097;
    assert(0 <= ia);
    assert(0 <= rest && rest + 4096 <= u32::MAX);
    assert(0 <= db && 4097 * db <= rest + 4096 && rest <= 4097 * db);
    assert(db <= rest);
    assert(s.data_bitmap_blocks * 4096 <= u32::MAX);
    assert(s.data_area_blocks <= s.data_bitmap_blocks * 4096);
    assert(geometry_ok(d));
    assert forall|id: int| !#[trigger] live(d, id) by {
        if 0 <= id < s.inode_bitmap_blocks * 4096 {
            lemma_areas(d, id, 0);
            lemma_zero_bit(d, 1, id);
        }
    }
    assert forall|b: int| #[trigger] in_data_area(d, b) implies !taken(d, b) && d[b]
        == zero_block() by {
        lemma_areas(d, 0, b);
        lemma_zero_bit(d, data_bitmap(s), b - data_area(s));
    }
    assert forall|k: int| 0 <= k < s.data_bitmap_blocks * 4096 implies !#[trigger] bit(
        d,
        data_bitmap(s),
        k,
    ) by {
        lemma_zero_bit(d, data_bitmap(s), k);
    }
    lemma_all_clear(d, data_bitmap(s), s.data_area_blocks as int);
}

impl<D: BlockDevice> EasyFileSystem<D> {
    /// The areas lie where the super block says.
    pub open spec fn matches(&self, s: SuperBlock) -> bool {
        &&& self.inode_bitmap == (Bitmap {
            start_block_id: 1,
            blocks: s.inode_bitmap_blocks as usize,
        })
        &&& self.data_bitmap.start_block_id == data_bitmap(s)
        &&& self.data_bitmap.blocks == s.data_bitmap_blocks
        &&& self.inode_area_start_block == inode_area(s)
        &&& self.data_area_start_block == data_area(s)
    }

    /// The disk is consistent, and the file system knows where its areas lie.
    pub open spec fn wf(&self) -> bool {
        &&& self.block_device.inv()
        &&& disk_ok(self@)
        &&& self.matches(super_block(self@))
    }

    /// Only what is on the disk may differ.
    pub open spec fn same_layout(&self, other: &Self) -> bool {
        &&& self.inode_bitmap == other.inode_bitmap
        &&& self.data_bitmap == other.data_bitmap
        &&& self.inode_area_start_block == other.inode_area_start_block
        &&& self.data_area_start_block == other.data_area_start_block
    }

    /// Make a new file system, with an empty root directory, on a block device.
    pub fn create(device: D, total_blocks: u32, inode_bitmap_blocks: u32) -> (r: Self)
        requires
            full_blocks(device.blocks()),
            total_blocks <= device.blocks().len(),
            plannable(total_blocks, inode_bitmap_blocks),
        ensures
            r.wf(),
            r.block_device.synced(),
            super_block(r@) == planned(total_blocks, inode_bitmap_blocks),
            forall|id: int|
                0 <= id < inode_bitmap_blocks * 4096 ==> #[trigger] inode_exists(r@, id),
            forall|id: int| #[trigger] live(r@, id) <==> id == 0,
            inode(r@, 0) == empty_inode(DiskInodeType::Directory),
            tree_ok(r@),
            entries(r@, 0) == Seq::<EntryModel>::empty(),
            free_data(r@) == super_block(r@).data_area_blocks,
            forall|k: int|
                0 <= k < super_block(r@).data_bitmap_blocks * 4096 ==> !#[trigger] bit(
                    r@,
                    data_bitmap(super_block(r@)),
                    k,
                ),
            r@.len() == device.blocks().len(),
            forall|b: int|
                total_blocks <= b < r@.len() ==> #[trigger] r@[b] == device.blocks()[b],
    {
        // calculate block size of areas & create bitmaps
        let inode_bitmap: Bitmap = Bitmap::new(1, inode_bitmap_blocks as usize);
        let inode_num: usize = inode_bitmap.maximum();
        let ghost s = planned(total_blocks, inode_bitmap_blocks);
        let ghost bitmap_start = data_bitmap(s);
        let ghost dev = device.blocks();
        let inodes_per_block: usize = BLOCK_SZ / DISK_INODE_SZ;
        let inode_area_blocks: u32 = ((inode_num + inodes_per_block - 1) / inodes_per_block) as u32;
        let inode_total_blocks: u32 = inode_bitmap_blocks + inode_area_blocks;
        let data_total_blocks: u32 = total_blocks - 1 - inode_total_blocks;
        let data_bitmap_blocks: u32 = (data_total_blocks + 4096) / 4097;
        let data_area_blocks: u32 = data_total_blocks - data_bitmap_blocks;
        let data_bitmap: Bitmap = Bitmap::new(
            (1 + inode_bitmap_blocks + inode_area_blocks) as usize,
            data_bitmap_blocks as usize,
        );
        let mut efs: EasyFileSystem<D> = EasyFileSystem {
            block_device: BlockStore::new(device),
            inode_bitmap,
            data_bitmap,
            inode_area_start_block: 1 + inode_bitmap_blocks,
            data_area_start_block: 1 + inode_total_blocks + data_bitmap_blocks,
        };
        let ghost efs0 = efs;
        assert(efs.matches(s));
        // clear all blocks
        let mut i: u32 = 0;
        while i < total_blocks
            invariant
                i <= total_blocks,
                total_blocks <= dev.len(),
                efs.block_device.inv(),
                efs.same_layout(&efs0),
                efs@.len() == dev.len(),
                forall|b: int| 0 <= b < i ==> #[trigger] efs@[b] == zero_block(),
                forall|b: int| i <= b < dev.len() ==> #[trigger] efs@[b] == dev[b],
            decreases total_blocks - i,
        {
            efs.block_device.clear_block(i as usize);
            i += 1;
        }
        // initialize SuperBlock
        let mut sb: SuperBlock = efs.block_device.read::<SuperBlock>(0, 0);
        sb.initialize(
            total_blocks,
            inode_bitmap_blocks,
            inode_area_blocks,
            data_bitmap_blocks,
            data_area_blocks,
        );
        proof {
            efs.block_device.lemma_full_blocks();
        }
        let ghost dz = efs@;
        efs.block_device.write::<SuperBlock>(0, 0, &sb);
        let ghost d1 = efs@;
        proof {
            efs.block_device.lemma_full_blocks();
            lemma_splice_same(dz[0], 0, SuperBlock::encode(sb@));
            assert(super_block(d1) == s) by {
                reveal(super_block);
            }
            lemma_blank(d1, total_blocks, inode_bitmap_blocks);
            assert(!efs.inode_bitmap.is_set(d1, 0)) by {
                assert(!live(d1, 0));
            }
        }
        // create a inode for root node "/"
        let root_id: u32 = efs.alloc_inode();
        proof {
            if root_id > 0 {
                assert(efs.inode_bitmap.is_set(d1, 0));
            }
            lemma_areas(d1, 0, 0);
            lemma_with_bit(d1, 1, 0, true);
            lemma_same_super(d1, efs@);
        }
        let (root_inode_block_id, root_inode_offset) = efs.get_disk_inode_pos(0);
        let mut root: DiskInode = efs.block_device.read::<DiskInode>(
            root_inode_block_id as usize,
            root_inode_offset,
        );
        root.initialize(DiskInodeType::Directory);
        efs.block_device.write::<DiskInode>(root_inode_block_id as usize, root_inode_offset, &root);
        proof {
            lemma_new_inode(d1, 0, DiskInodeType::Directory);
            assert(efs@ == put_inode(
                with_bit(d1, 1, 0, true),
                0,
                empty_inode(DiskInodeType::Directory),
            ));
            assert forall|id: int| #[trigger] live(efs@, id) <==> id == 0 by {
                if id != 0 {
                    assert(live(efs@, id) <==> live(d1, id));
                }
            }
            assert forall|k: int|
                0 <= k < s.data_bitmap_blocks * 4096 implies !#[trigger] bit(
                efs@,
                bitmap_start,
                k,
            ) by {
                assert(!bit(d1, bitmap_start, k));
                lemma_bits_same(d1, efs@, bitmap_start, k);
            }
            lemma_fresh_tree(efs@);
        }
        efs.block_device.block_cache_sync_all();
        efs
    }

    /// Open a block device as a file system.
    pub fn open(device: D) -> (r: Self)
        requires
            full_blocks(device.blocks()),
            device.blocks().len() > 0,
            super_block(device.blocks()).magic == EFS_MAGIC,
            data_area(super_block(device.blocks())) <= u32::MAX,
        ensures
            r.block_device.inv(),
            r.block_device.synced(),
            r@ == device.blocks(),
            r.matches(super_block(r@)),
            disk_ok(device.blocks()) ==> r.wf(),
    {
        let mut block_device: BlockStore<D> = BlockStore::new(device);
        // read SuperBlock
        let sb: SuperBlock = block_device.read::<SuperBlock>(0, 0);
        assert(sb@ == super_block(device.blocks())) by {
            reveal(super_block);
        }
        let inode_total_blocks: u32 = sb.inode_bitmap_blocks + sb.inode_area_blocks;
        EasyFileSystem {
            block_device,
            inode_bitmap: Bitmap::new(1, sb.inode_bitmap_blocks as usize),
            data_bitmap: Bitmap::new(
                (1 + inode_total_blocks) as usize,
                sb.data_bitmap_blocks as usize,
            ),
            inode_area_start_block: 1 + sb.inode_bitmap_blocks,
            data_area_start_block: 1 + inode_total_blocks + sb.data_bitmap_blocks,
        }
    }

    /// Get the root inode of the file system.
    pub fn root_inode(&self) -> (r: Inode)
        ensures
            r.id() == 0,
            r.located(self.inode_area_start_block as int),
    {
        let (block_id, block_offset) = self.get_disk_inode_pos(0);
        Inode::new(block_id, block_offset, 0)
    }

    /// Get the block of an inode, and where in the block it lies.
    pub fn get_disk_inode_pos(&self, inode_id: u32) -> (r: (u32, usize))
        requires
            self.inode_area_start_block + inode_id / 3 <= u32::MAX,
        ensures
            r.0 == self.inode_area_start_block + inode_id / 3,
            r.1 == inode_offset(inode_id as int),
    {
        let inodes_per_block: u32 = (BLOCK_SZ / DISK_INODE_SZ) as u32;
        let block_id: u32 = self.inode_area_start_block + inode_id / inodes_per_block;
        (block_id, (inode_id % inodes_per_block) as usize * DISK_INODE_SZ)
    }

    /// Get the block of the disk that a block of the data area is.
    pub fn get_data_block_id(&self, data_block_id: u32) -> (r: u32)
        requires
            self.data_area_start_block + data_block_id <= u32::MAX,
        ensures
            r == self.data_area_start_block + data_block_id,
    {
        self.data_area_start_block + data_block_id
    }

    /// Allocate a new inode: the first that is free.
    pub fn alloc_inode(&mut self) -> (r: u32)
        requires
            old(self).block_device.inv(),
            old(self).inode_bitmap.wf(old(self)@),
            old(self).inode_bitmap.blocks * BLOCK_BITS <= u32::MAX,
            exists|k: int|
                0 <= k < old(self).inode_bitmap.blocks * BLOCK_BITS
                    && !#[trigger] old(self).inode_bitmap.is_set(old(self)@, k),
        ensures
            final(self).block_device.inv(),
            final(self).same_layout(old(self)),
            r < old(self).inode_bitmap.blocks * BLOCK_BITS,
            !old(self).inode_bitmap.is_set(old(self)@, r as int),
            forall|j: int|
                0 <= j < r ==> #[trigger] old(self).inode_bitmap.is_set(old(self)@, j),
            final(self)@ == with_bit(
                old(self)@,
                old(self).inode_bitmap.start_block_id as int,
                r as int,
                true,
            ),
    {
        self.inode_bitmap.allocate(&mut self.block_device).unwrap() as u32
    }

    /// Allocate a block of the data area: the first that is free.
    pub fn alloc_data(&mut self) -> (r: u32)
        requires
            old(self).block_device.inv(),
            geometry_ok(old(self)@),
            old(self).matches(super_block(old(self)@)),
            exists|k: int|
                0 <= k < super_block(old(self)@).data_area_blocks
                    && !#[trigger] old(self).data_bitmap.is_set(old(self)@, k),
        ensures
            final(self).block_device.inv(),
            final(self).same_layout(old(self)),
            in_data_area(old(self)@, r as int),
            r < old(self)@.len(),
            ({
                let k = r - old(self).data_area_start_block;
                &&& !old(self).data_bitmap.is_set(old(self)@, k)
                &&& forall|j: int|
                    0 <= j < k ==> #[trigger] old(self).data_bitmap.is_set(old(self)@, j)
                &&& final(self)@ == with_bit(
                    old(self)@,
                    old(self).data_bitmap.start_block_id as int,
                    k,
                    true,
                )
            }),
    {
        let ghost d = self@;
        let ghost bitmap = self.data_bitmap;
        let ghost k0 = choose|k: int|
            0 <= k < super_block(d).data_area_blocks && !#[trigger] bitmap.is_set(d, k);
        let bit: usize = self.data_bitmap.allocate(&mut self.block_device).unwrap();
        proof {
            if bit > k0 {
                assert(bitmap.is_set(d, k0));
            }
        }
        bit as u32 + self.data_area_start_block
    }

    /// Deallocate a block of the data area, and set its bytes to zero.
    pub fn dealloc_data(&mut self, block_id: u32)
        requires
            old(self).block_device.inv(),
            old(self).data_area_start_block <= block_id < old(self)@.len(),
            old(self).data_bitmap.start_block_id + (block_id - old(self).data_area_start_block)
                / 4096 < old(self)@.len(),
            old(self).data_bitmap.start_block_id + (block_id - old(self).data_area_start_block)
                / 4096 < old(self).data_area_start_block,
            old(self).data_bitmap.is_set(
                old(self)@,
                block_id - old(self).data_area_start_block,
            ),
        ensures
            final(self).block_device.inv(),
            final(self).same_layout(old(self)),
            final(self)@ == with_bit(
                old(self)@.update(block_id as int, zero_block()),
                old(self).data_bitmap.start_block_id as int,
                block_id - old(self).data_area_start_block,
                false,
            ),
    {
        let ghost d = self@;
        self.block_device.clear_block(block_id as usize);
        proof {
            lemma_bits_same(
                d,
                self@,
                self.data_bitmap.start_block_id as int,
                block_id - self.data_area_start_block,
            );
        }
        self.data_bitmap.dealloc(
            &mut self.block_device,
            (block_id - self.data_area_start_block) as usize,
        )
    }
}

} // verus!
