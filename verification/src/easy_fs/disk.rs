//! What a disk with a file system on it means, and what keeps it consistent.
use super::bitmap::{bit, lemma_with_bit, with_bit};
use super::block_cache::zero_block;
use super::block_dev::full_blocks;
use super::bytes::{lemma_splice_disjoint, lemma_splice_same, splice, Record};
use super::layout::{
    empty_inode, lemma_data_block, lemma_same_index, lemma_wrote, wrote, DiskInode, DiskInodeType,
    SuperBlock, EFS_MAGIC,
};
use super::model::{
    is_index_pos, lemma_total_monotonic, pos_of, same_but_index, total_blocks_of, InodeModel,
};
use vstd::prelude::*;

verus! {

/// The super block of a disk.
#[verifier::opaque]
pub open spec fn super_block(d: Seq<Seq<u8>>) -> SuperBlock {
    SuperBlock::decode(d[0].subrange(0, 24))
}

/// The first block of the inode area.
pub open spec fn inode_area(s: SuperBlock) -> int {
    1 + s.inode_bitmap_blocks
}

/// The first block of the data bitmap.
pub open spec fn data_bitmap(s: SuperBlock) -> int {
    1 + s.inode_bitmap_blocks + s.inode_area_blocks
}

/// The first block of the data area.
pub open spec fn data_area(s: SuperBlock) -> int {
    1 + s.inode_bitmap_blocks + s.inode_area_blocks + s.data_bitmap_blocks
}

/// The super block, the inode bitmap, the inode area, the data bitmap and the data
/// area follow one another and fit on the disk, the inode area has a place for every
/// inode that the inode bitmap can hand out, and the data bitmap has a bit for every block
/// of the data area.
pub open spec fn geometry_ok(d: Seq<Seq<u8>>) -> bool {
    let s = super_block(d);
    &&& d.len() > 0
    &&& full_blocks(d)
    &&& s.magic == EFS_MAGIC
    &&& s.inode_bitmap_blocks >= 1
    &&& s.total_blocks == data_area(s) + s.data_area_blocks
    &&& s.total_blocks <= d.len()
    &&& s.data_area_blocks <= s.data_bitmap_blocks * 4096
    &&& s.inode_bitmap_blocks * 4096 <= u32::MAX
    &&& s.inode_bitmap_blocks * 4096 <= s.inode_area_blocks * 3
    &&& s.data_bitmap_blocks * 4096 <= u32::MAX
}

/// An inode block holds three disk inodes.
pub open spec fn inode_block(s: SuperBlock, id: int) -> int {
    inode_area(s) + id / 3
}

/// Where in its block a disk inode lies.
pub open spec fn inode_offset(id: int) -> int {
    (id % 3) * 132
}

/// The disk inode with the given number.
#[verifier::opaque]
pub open spec fn inode(d: Seq<Seq<u8>>, id: int) -> InodeModel {
    DiskInode::decode(
        d[inode_block(super_block(d), id)].subrange(inode_offset(id), inode_offset(id) + 132),
    )
}

/// The blocks that a file owns.
#[verifier::opaque]
pub open spec fn owned(d: Seq<Seq<u8>>, id: int) -> Seq<u32> {
    inode(d, id).owned(d)
}

/// The bytes of a file.
#[verifier::opaque]
pub open spec fn file(d: Seq<Seq<u8>>, id: int) -> Seq<u8> {
    inode(d, id).content(d)
}

/// The bytes behind the end of a file, in its last block, are zero.
#[verifier::opaque]
pub open spec fn zero_tail(d: Seq<Seq<u8>>, id: int) -> bool {
    inode(d, id).tail_zero(d)
}

/// The first `n` bytes of the blocks of a file, and zero bytes where it has no block.
#[verifier::opaque]
pub open spec fn extended(d: Seq<Seq<u8>>, id: int, n: int) -> Seq<u8> {
    let m = inode(d, id);
    Seq::new(
        n as nat,
        |k: int|
            if k < 512 * m.blocks() {
                m.raw_at(d, k)
            } else {
                0u8
            },
    )
}

/// The disk inode is well formed.
#[verifier::opaque]
pub open spec fn inode_wf(d: Seq<Seq<u8>>, id: int) -> bool {
    inode(d, id).wf(d)
}

/// The blocks after the disk inode with the given number became `m`.
pub open spec fn put_inode(d: Seq<Seq<u8>>, id: int, m: InodeModel) -> Seq<Seq<u8>> {
    d.update(
        inode_block(super_block(d), id),
        splice(d[inode_block(super_block(d), id)], inode_offset(id), DiskInode::encode(m)),
    )
}

/// The number lies in the inode bitmap, and the disk inode in the inode area.
pub open spec fn inode_exists(d: Seq<Seq<u8>>, id: int) -> bool {
    let s = super_block(d);
    0 <= id < s.inode_bitmap_blocks * 4096 && id / 3 < s.inode_area_blocks
}

/// The inode is allocated.
pub open spec fn live(d: Seq<Seq<u8>>, id: int) -> bool {
    0 <= id < super_block(d).inode_bitmap_blocks * 4096 && bit(d, 1, id)
}

/// The block of the data area is allocated.
pub open spec fn taken(d: Seq<Seq<u8>>, b: int) -> bool {
    bit(d, data_bitmap(super_block(d)), b - data_area(super_block(d)))
}

/// The block lies in the data area.
pub open spec fn in_data_area(d: Seq<Seq<u8>>, b: int) -> bool {
    let s = super_block(d);
    data_area(s) <= b < data_area(s) + s.data_area_blocks
}

/// An allocated inode lies in the inode area, and its blocks are allocated blocks of
/// the data area.
pub open spec fn inode_ok(d: Seq<Seq<u8>>, id: int) -> bool {
    let o = owned(d, id);
    &&& inode_exists(d, id)
    &&& inode_wf(d, id)
    &&& forall|p: int|
        0 <= p < o.len() ==> in_data_area(d, #[trigger] o[p] as int) && taken(d, o[p] as int)
}

/// No block belongs to two files.
pub open spec fn disjoint(d: Seq<Seq<u8>>, i: int, j: int) -> bool {
    forall|p: int, q: int|
        0 <= p < owned(d, i).len() && 0 <= q < owned(d, j).len()
            ==> #[trigger] owned(d, i)[p] != #[trigger] owned(d, j)[q]
}

/// The disk is consistent: every file is well formed, no block belongs to two files,
/// and a block that is free holds zero bytes.
#[verifier::opaque]
pub open spec fn disk_ok(d: Seq<Seq<u8>>) -> bool {
    &&& geometry_ok(d)
    &&& forall|id: int| #[trigger] live(d, id) ==> inode_ok(d, id)
    &&& forall|i: int, j: int|
        #[trigger] live(d, i) && #[trigger] live(d, j) && i != j ==> disjoint(d, i, j)
    &&& forall|b: int|
        #[trigger] in_data_area(d, b) && !taken(d, b) ==> d[b] == zero_block()
}

/// No allocated inode owns the block.
pub open spec fn unowned(d: Seq<Seq<u8>>, b: int) -> bool {
    forall|id: int, p: int|
        live(d, id) && 0 <= p < owned(d, id).len()
            ==> #[trigger] owned(d, id)[p] as int != b
}

/// The inode and its file are the same on both disks.
pub open spec fn same_file(d: Seq<Seq<u8>>, d2: Seq<Seq<u8>>, id: int) -> bool {
    &&& live(d2, id)
    &&& inode(d2, id) == inode(d, id)
    &&& owned(d2, id) == owned(d, id)
    &&& file(d2, id) == file(d, id)
    &&& zero_tail(d, id) ==> zero_tail(d2, id)
    &&& forall|n: int| #[trigger] extended(d2, id, n) == extended(d, id, n)
}

/// Every file but `id` is the same on both disks, and no other inode came or went.
pub open spec fn others_same(d: Seq<Seq<u8>>, d2: Seq<Seq<u8>>, id: int) -> bool {
    &&& d2.len() == d.len()
    &&& super_block(d2) == super_block(d)
    &&& forall|j: int| j != id ==> (#[trigger] live(d2, j) <==> live(d, j))
    &&& forall|j: int| j != id && live(d, j) ==> #[trigger] same_file(d, d2, j)
}

/// What a consistent disk says of an inode.
pub proof fn lemma_disk_ok(d: Seq<Seq<u8>>, id: int)
    requires
        disk_ok(d),
    ensures
        geometry_ok(d),
        live(d, id) ==> inode_ok(d, id),
{
    reveal(disk_ok);
}

/// On a consistent disk two inodes share no block.
pub proof fn lemma_disjoint(d: Seq<Seq<u8>>, i: int, j: int)
    requires
        disk_ok(d),
        live(d, i),
        live(d, j),
        i != j,
    ensures
        disjoint(d, i, j),
{
    reveal(disk_ok);
}

/// What stays the same over two changes stays the same over both.
pub proof fn lemma_others_same_trans(
    d: Seq<Seq<u8>>,
    d1: Seq<Seq<u8>>,
    d2: Seq<Seq<u8>>,
    i: int,
    j: int,
)
    requires
        others_same(d, d1, i),
        others_same(d1, d2, j),
        i == j || i == -1 || j == -1,
        i == -1 ==> !live(d, -1) && !live(d1, -1),
        j == -1 ==> !live(d1, -1) && !live(d2, -1),
    ensures
        others_same(d, d2, if i == -1 {
            j
        } else {
            i
        }),
{
    let k = if i == -1 {
        j
    } else {
        i
    };
    assert forall|x: int| x != k implies (#[trigger] live(d2, x) <==> live(d, x)) by {
        assert(live(d1, x) <==> live(d, x));
    }
    assert forall|x: int| x != k && live(d, x) implies #[trigger] same_file(d, d2, x) by {
        assert(same_file(d, d1, x));
        assert(same_file(d1, d2, x));
    }
}

/// The number of clear bits among the first `n` of the bitmap that starts at `start`.
pub open spec fn clear_below(d: Seq<Seq<u8>>, start: int, n: int) -> int
    decreases n,
{
    if n <= 0 {
        0
    } else {
        clear_below(d, start, n - 1) + (if bit(d, start, n - 1) {
            0int
        } else {
            1
        })
    }
}

/// The number of free blocks of the data area.
pub open spec fn free_data(d: Seq<Seq<u8>>) -> int {
    clear_below(d, data_bitmap(super_block(d)), super_block(d).data_area_blocks as int)
}

/// The same bits are counted the same.
pub proof fn lemma_clear_same(d: Seq<Seq<u8>>, d2: Seq<Seq<u8>>, start: int, n: int)
    requires
        forall|k: int| 0 <= k < n ==> #[trigger] bit(d2, start, k) == bit(d, start, k),
    ensures
        clear_below(d2, start, n) == clear_below(d, start, n),
    decreases n,
{
    if n > 0 {
        lemma_clear_same(d, d2, start, n - 1);
        assert(bit(d2, start, n - 1) == bit(d, start, n - 1));
    }
}

/// Changing one bit changes the number of clear ones by one.
pub proof fn lemma_clear_changed(d: Seq<Seq<u8>>, d2: Seq<Seq<u8>>, start: int, n: int, k: int)
    requires
        0 <= k < n,
        bit(d2, start, k) != bit(d, start, k),
        forall|j: int| 0 <= j < n && j != k ==> #[trigger] bit(d2, start, j) == bit(d, start, j),
    ensures
        clear_below(d2, start, n) == clear_below(d, start, n) + (if bit(d, start, k) {
            1int
        } else {
            -1
        }),
    decreases n,
{
    if k == n - 1 {
        lemma_clear_same(d, d2, start, n - 1);
    } else {
        lemma_clear_changed(d, d2, start, n - 1, k);
        assert(bit(d2, start, n - 1) == bit(d, start, n - 1));
    }
}

/// Where there is a clear bit, one can be found.
pub proof fn lemma_clear_exists(d: Seq<Seq<u8>>, start: int, n: int) -> (k: int)
    requires
        clear_below(d, start, n) > 0,
    ensures
        0 <= k < n,
        !bit(d, start, k),
    decreases n,
{
    if bit(d, start, n - 1) {
        lemma_clear_exists(d, start, n - 1)
    } else {
        n - 1
    }
}

/// Which blocks of the disk lie in which area.
pub proof fn lemma_areas(d: Seq<Seq<u8>>, id: int, b: int)
    requires
        geometry_ok(d),
    ensures
        inode_exists(d, id) ==> inode_area(super_block(d)) <= inode_block(super_block(d), id)
            < data_bitmap(super_block(d)),
        inode_exists(d, id) ==> 0 <= inode_offset(id) <= 264,
        in_data_area(d, b) ==> data_area(super_block(d)) <= b < d.len(),
        in_data_area(d, b) ==> data_bitmap(super_block(d)) <= data_bitmap(super_block(d)) + (b
            - data_area(super_block(d))) / 4096 < data_area(super_block(d)),
        0 <= id < super_block(d).inode_bitmap_blocks * 4096 ==> 1 <= 1 + id / 4096 < inode_area(
            super_block(d),
        ),
        inode_area(super_block(d)) <= data_bitmap(super_block(d)) <= data_area(super_block(d))
            <= d.len(),
        1 < inode_area(super_block(d)),
{
}

/// The same blocks have the same bits.
pub proof fn lemma_bits_same(d: Seq<Seq<u8>>, d2: Seq<Seq<u8>>, start: int, k: int)
    requires
        d2[start + k / 4096] == d[start + k / 4096],
    ensures
        bit(d2, start, k) == bit(d, start, k),
{
}

/// The same first block holds the same super block.
pub proof fn lemma_same_super(d: Seq<Seq<u8>>, d2: Seq<Seq<u8>>)
    requires
        d2[0] == d[0],
    ensures
        super_block(d2) == super_block(d),
{
    reveal(super_block);
}

/// The same inode block holds the same disk inode.
pub proof fn lemma_same_inode(d: Seq<Seq<u8>>, d2: Seq<Seq<u8>>, id: int)
    requires
        super_block(d2) == super_block(d),
        d2[inode_block(super_block(d), id)] == d[inode_block(super_block(d), id)],
    ensures
        inode(d2, id) == inode(d, id),
{
    reveal(inode);
}

/// A file whose blocks and whose disk inode stay as they are stays as it is.
pub proof fn lemma_file_frame(d: Seq<Seq<u8>>, d2: Seq<Seq<u8>>, id: int)
    requires
        inode_wf(d, id),
        d2.len() == d.len(),
        full_blocks(d2),
        inode(d2, id) == inode(d, id),
        forall|p: int|
            0 <= p < owned(d, id).len() ==> d2[#[trigger] owned(d, id)[p] as int]
                == d[owned(d, id)[p] as int],
    ensures
        owned(d2, id) == owned(d, id),
        inode_wf(d2, id),
        file(d2, id) == file(d, id),
        zero_tail(d, id) ==> zero_tail(d2, id),
        forall|n: int| #[trigger] extended(d2, id, n) == extended(d, id, n),
{
    reveal(owned);
    reveal(file);
    reveal(zero_tail);
    reveal(inode_wf);
    let m = inode(d, id);
    assert forall|q: int| 0 <= q < m.owned(d).len() implies d2[#[trigger] m.owned(d)[q] as int]
        == d[m.owned(d)[q] as int] by {
        assert(owned(d, id)[q] == m.owned(d)[q]);
    }
    lemma_same_index(m, d, d2);
    assert forall|k: int| 0 <= k < 512 * m.blocks() implies #[trigger] m.raw_at(d2, k) == m.raw_at(
        d,
        k,
    ) by {
        lemma_data_block(m, d, k / 512);
        assert(m.block_of(d2, k / 512) == m.block_of(d, k / 512));
    }
    assert forall|k: int| 0 <= k < m.size implies m.content(d2)[k] == m.content(d)[k] by {
        assert(m.raw_at(d2, k) == m.raw_at(d, k));
    }
    assert(m.content(d2) =~= m.content(d));
    assert forall|n: int| #[trigger] extended(d2, id, n) == extended(d, id, n) by {
        reveal(extended);
        assert forall|k: int| 0 <= k < n implies extended(d2, id, n)[k] == extended(d, id, n)[k] by {
            if k < 512 * m.blocks() {
                assert(m.raw_at(d2, k) == m.raw_at(d, k));
            }
        }
        assert(extended(d2, id, n) =~= extended(d, id, n));
    }
}

/// A disk inode that was written is read back, and the others stay.
pub proof fn lemma_put_inode(d: Seq<Seq<u8>>, id: int, m: InodeModel)
    requires
        geometry_ok(d),
        inode_exists(d, id),
        DiskInode::encode(m).len() == 132,
        DiskInode::decode(DiskInode::encode(m)) == m,
    ensures
        put_inode(d, id, m).len() == d.len(),
        full_blocks(put_inode(d, id, m)),
        super_block(put_inode(d, id, m)) == super_block(d),
        geometry_ok(put_inode(d, id, m)),
        inode(put_inode(d, id, m), id) == m,
        forall|j: int|
            inode_exists(d, j) && j != id ==> #[trigger] inode(put_inode(d, id, m), j) == inode(
                d,
                j,
            ),
        forall|b: int|
            0 <= b < d.len() && b != inode_block(super_block(d), id) ==> #[trigger] put_inode(
                d,
                id,
                m,
            )[b] == d[b],
{
    reveal(inode);
    let d2 = put_inode(d, id, m);
    let s = super_block(d);
    let b = inode_block(s, id);
    lemma_areas(d, id, 0);
    assert(d2[0] == d[0]);
    lemma_same_super(d, d2);
    lemma_splice_same(d[b], inode_offset(id), DiskInode::encode(m));
    assert forall|j: int| inode_exists(d, j) && j != id implies #[trigger] inode(d2, j) == inode(
        d,
        j,
    ) by {
        lemma_areas(d, j, 0);
        if inode_block(s, j) == b {
            assert(j % 3 != id % 3);
            lemma_splice_disjoint(
                d[b],
                inode_offset(id),
                DiskInode::encode(m),
                inode_offset(j),
                inode_offset(j) + 132,
            );
        }
    }
}

/// A consistent disk stays so when the disk inode of one file and the blocks that are
/// its own or nobody's change, as long as that file stays well formed. The other
/// files stay as they are.
pub proof fn lemma_change_file(d: Seq<Seq<u8>>, d2: Seq<Seq<u8>>, id: int)
    requires
        disk_ok(d),
        inode_exists(d, id),
        live(d2, id),
        d2.len() == d.len(),
        full_blocks(d2),
        super_block(d2) == super_block(d),
        forall|k: int|
            0 <= k < super_block(d).inode_bitmap_blocks * 4096 && k != id ==> #[trigger] bit(
                d2,
                1,
                k,
            ) == bit(d, 1, k),
        forall|b: int| #[trigger] in_data_area(d, b) ==> taken(d2, b) == taken(d, b),
        forall|j: int| live(d, j) && j != id ==> #[trigger] inode(d2, j) == inode(d, j),
        forall|j: int, p: int|
            live(d, j) && j != id && 0 <= p < owned(d, j).len()
                ==> d2[#[trigger] owned(d, j)[p] as int] == d[owned(d, j)[p] as int],
        forall|b: int|
            #[trigger] in_data_area(d, b) && !taken(d, b) ==> d2[b] == d[b],
        inode_wf(d2, id),
        forall|p: int|
            0 <= p < owned(d2, id).len() ==> {
                let b = #[trigger] owned(d2, id)[p] as int;
                &&& in_data_area(d, b)
                &&& taken(d, b)
                &&& forall|j: int, q: int|
                    live(d, j) && j != id && 0 <= q < owned(d, j).len()
                        ==> #[trigger] owned(d, j)[q] as int != b
            },
    ensures
        disk_ok(d2),
        others_same(d, d2, id),
        free_data(d2) == free_data(d),
{
    reveal(disk_ok);
    let s = super_block(d);
    assert(geometry_ok(d2));
    assert forall|j: int| j != id implies #[trigger] live(d2, j) == live(d, j) by {
        if 0 <= j < s.inode_bitmap_blocks * 4096 {
            assert(bit(d2, 1, j) == bit(d, 1, j));
        }
    }
    assert forall|j: int| live(d, j) && j != id implies #[trigger] same_file(d, d2, j) && inode_ok(
        d2,
        j,
    ) by {
        assert(inode_ok(d, j));
        assert(inode(d2, j) == inode(d, j));
        lemma_file_frame(d, d2, j);
        let o = owned(d, j);
        assert forall|p: int| 0 <= p < o.len() implies in_data_area(d2, #[trigger] o[p] as int)
            && taken(d2, o[p] as int) by {
            assert(in_data_area(d, o[p] as int));
        }
    }
    assert(inode_ok(d2, id)) by {
        let o = owned(d2, id);
        assert forall|p: int| 0 <= p < o.len() implies in_data_area(d2, #[trigger] o[p] as int)
            && taken(d2, o[p] as int) by {
            assert(in_data_area(d, o[p] as int));
        }
    }
    assert forall|j: int| #[trigger] live(d2, j) implies inode_ok(d2, j) by {
        assert(j == id || (live(d, j) && same_file(d, d2, j)));
    }
    assert forall|i: int, j: int|
        #[trigger] live(d2, i) && #[trigger] live(d2, j) && i != j implies disjoint(d2, i, j) by {
        assert(i == id || live(d, i));
        assert(j == id || live(d, j));
        if i != id && j != id {
            assert(disjoint(d, i, j));
            assert(same_file(d, d2, i));
            assert(same_file(d, d2, j));
        } else if i == id {
            assert(same_file(d, d2, j));
        } else {
            assert(same_file(d, d2, i));
        }
    }
    assert forall|b: int| #[trigger] in_data_area(d2, b) && !taken(d2, b) implies d2[b]
        == zero_block() by {
        assert(in_data_area(d, b));
    }
    assert forall|k: int| 0 <= k < s.data_area_blocks implies #[trigger] bit(
        d2,
        data_bitmap(s),
        k,
    ) == bit(d, data_bitmap(s), k) by {
        let b = data_area(s) + k;
        assert(in_data_area(d, b));
        assert(taken(d2, b) == taken(d, b));
    }
    lemma_clear_same(d, d2, data_bitmap(s), s.data_area_blocks as int);
}

/// Allocating a free block of the data area keeps the disk consistent.
pub proof fn lemma_take_block(d: Seq<Seq<u8>>, b: int)
    requires
        disk_ok(d),
        in_data_area(d, b),
        !taken(d, b),
    ensures
        ({
            let s = super_block(d);
            let d2 = with_bit(d, data_bitmap(s), b - data_area(s), true);
            &&& disk_ok(d2)
            &&& others_same(d, d2, -1)
            &&& free_data(d2) == free_data(d) - 1
            &&& unowned(d, b)
            &&& unowned(d2, b)
            &&& taken(d2, b)
            &&& forall|c: int|
                #[trigger] in_data_area(d, c) && c != b ==> taken(d2, c) == taken(d, c)
            &&& forall|c: int| #[trigger] in_data_area(d, c) ==> d2[c] == d[c]
            &&& forall|c: int|
                0 <= c < data_bitmap(s) ==> #[trigger] d2[c] == d[c]
        }),
{
    reveal(disk_ok);
    let s = super_block(d);
    let k = b - data_area(s);
    let d2 = with_bit(d, data_bitmap(s), k, true);
    lemma_areas(d, 0, b);
    lemma_with_bit(d, data_bitmap(s), k, true);
    assert(d2[0] == d[0]);
    lemma_same_super(d, d2);
    assert(unowned(d, b)) by {
        assert forall|id: int, p: int|
            live(d, id) && 0 <= p < owned(d, id).len() implies #[trigger] owned(d, id)[p] as int != b by {
            assert(inode_ok(d, id));
        }
    }
    assert forall|c: int| #[trigger] in_data_area(d, c) && c != b implies taken(d2, c) == taken(
        d,
        c,
    ) by {
        lemma_areas(d, 0, c);
    }
    assert forall|c: int| #[trigger] in_data_area(d, c) implies d2[c] == d[c] by {
        lemma_areas(d, 0, c);
    }
    assert forall|j: int| #[trigger] live(d2, j) == live(d, j) by {
        if 0 <= j < s.inode_bitmap_blocks * 4096 {
            lemma_areas(d, j, 0);
            lemma_bits_same(d, d2, 1, j);
        }
    }
    assert forall|j: int| live(d, j) implies #[trigger] same_file(d, d2, j) && inode_ok(
        d2,
        j,
    ) by {
        assert(inode_ok(d, j));
        lemma_areas(d, j, 0);
        lemma_same_inode(d, d2, j);
        let o = owned(d, j);
        assert forall|p: int| 0 <= p < o.len() implies d2[#[trigger] o[p] as int] == d[o[p] as int]
            && in_data_area(d2, o[p] as int) && taken(d2, o[p] as int) by {
            assert(in_data_area(d, o[p] as int));
        }
        lemma_file_frame(d, d2, j);
    }
    assert forall|j: int| #[trigger] live(d2, j) implies inode_ok(d2, j) by {
        assert(live(d, j));
        assert(same_file(d, d2, j));
    }
    assert forall|i: int, j: int|
        #[trigger] live(d2, i) && #[trigger] live(d2, j) && i != j implies disjoint(d2, i, j) by {
        assert(live(d, i) && live(d, j));
        assert(disjoint(d, i, j));
        assert(same_file(d, d2, i));
        assert(same_file(d, d2, j));
    }
    assert forall|c: int| #[trigger] in_data_area(d2, c) && !taken(d2, c) implies d2[c]
        == zero_block() by {
        assert(in_data_area(d, c));
    }
    assert forall|j: int| 0 <= j < s.data_area_blocks && j != k implies #[trigger] bit(
        d2,
        data_bitmap(s),
        j,
    ) == bit(d, data_bitmap(s), j) by {
        lemma_areas(d, 0, data_area(s) + j);
        assert(in_data_area(d, data_area(s) + j));
    }
    lemma_clear_changed(d, d2, data_bitmap(s), s.data_area_blocks as int, k);
    assert(unowned(d2, b)) by {
        assert forall|id: int, p: int|
            live(d2, id) && 0 <= p < owned(d2, id).len() implies #[trigger] owned(d2, id)[p] as int != b by {
            assert(same_file(d, d2, id));
            assert(owned(d, id)[p] as int != b);
        }
    }
}

/// The blocks after a block of the data area was freed.
pub open spec fn freed(d: Seq<Seq<u8>>, b: int) -> Seq<Seq<u8>> {
    with_bit(
        d.update(b, zero_block()),
        data_bitmap(super_block(d)),
        b - data_area(super_block(d)),
        false,
    )
}

/// A block that was freed is free.
pub proof fn lemma_freed_bit(d: Seq<Seq<u8>>, b: int)
    requires
        geometry_ok(d),
        in_data_area(d, b),
    ensures
        super_block(freed(d, b)) == super_block(d),
        !taken(freed(d, b), b),
{
    let s = super_block(d);
    let d1 = d.update(b, zero_block());
    lemma_areas(d, 0, b);
    assert(full_blocks(d1));
    lemma_with_bit(d1, data_bitmap(s), b - data_area(s), false);
    lemma_same_super(d, freed(d, b));
}

/// Freeing a block that no file owns keeps the disk consistent.
pub proof fn lemma_free_block(d: Seq<Seq<u8>>, b: int)
    requires
        disk_ok(d),
        in_data_area(d, b),
        taken(d, b),
        unowned(d, b),
    ensures
        disk_ok(freed(d, b)),
        others_same(d, freed(d, b), -1),
        free_data(freed(d, b)) == free_data(d) + 1,
        forall|c: int|
            #[trigger] in_data_area(d, c) && c != b ==> taken(freed(d, b), c) == taken(d, c),
        forall|c: int| unowned(d, c) ==> #[trigger] unowned(freed(d, b), c),
        forall|c: int|
            0 <= c < data_bitmap(super_block(d)) ==> #[trigger] freed(d, b)[c] == d[c],
{
    reveal(disk_ok);
    let s = super_block(d);
    let k = b - data_area(s);
    let d1 = d.update(b, zero_block());
    let d2 = freed(d, b);
    lemma_areas(d, 0, b);
    assert(full_blocks(d1));
    lemma_with_bit(d1, data_bitmap(s), k, false);
    assert(d2[0] == d[0]);
    lemma_same_super(d, d2);
    assert forall|c: int| #[trigger] in_data_area(d, c) && c != b implies taken(d2, c) == taken(
        d,
        c,
    ) && d2[c] == d[c] by {
        lemma_areas(d, 0, c);
        let bb = data_bitmap(s) + (c - data_area(s)) / 4096;
        assert(d1[bb] == d[bb]);
        lemma_bits_same(d, d1, data_bitmap(s), c - data_area(s));
    }
    assert(d2[b] == zero_block());
    assert(!taken(d2, b));
    assert forall|j: int| #[trigger] live(d2, j) == live(d, j) by {
        if 0 <= j < s.inode_bitmap_blocks * 4096 {
            lemma_areas(d, j, 0);
            lemma_bits_same(d, d2, 1, j);
        }
    }
    assert forall|j: int| live(d, j) implies #[trigger] same_file(d, d2, j) && inode_ok(
        d2,
        j,
    ) by {
        assert(inode_ok(d, j));
        lemma_areas(d, j, 0);
        lemma_same_inode(d, d2, j);
        let o = owned(d, j);
        assert forall|p: int| 0 <= p < o.len() implies d2[#[trigger] o[p] as int] == d[o[p] as int]
            && in_data_area(d2, o[p] as int) && taken(d2, o[p] as int) by {
            assert(in_data_area(d, o[p] as int));
            assert(owned(d, j)[p] as int != b);
        }
        lemma_file_frame(d, d2, j);
    }
    assert forall|j: int| #[trigger] live(d2, j) implies inode_ok(d2, j) by {
        assert(live(d, j));
        assert(same_file(d, d2, j));
    }
    assert forall|i: int, j: int|
        #[trigger] live(d2, i) && #[trigger] live(d2, j) && i != j implies disjoint(d2, i, j) by {
        assert(live(d, i) && live(d, j));
        assert(disjoint(d, i, j));
        assert(same_file(d, d2, i));
        assert(same_file(d, d2, j));
    }
    assert forall|c: int| #[trigger] in_data_area(d2, c) && !taken(d2, c) implies d2[c]
        == zero_block() by {
        assert(in_data_area(d, c));
    }
    assert forall|j: int| 0 <= j < s.data_area_blocks && j != k implies #[trigger] bit(
        d2,
        data_bitmap(s),
        j,
    ) == bit(d, data_bitmap(s), j) by {
        assert(in_data_area(d, data_area(s) + j));
        assert(taken(d2, data_area(s) + j) == taken(d, data_area(s) + j));
    }
    assert(bit(d, data_bitmap(s), k));
    lemma_clear_changed(d, d2, data_bitmap(s), s.data_area_blocks as int, k);
    assert forall|c: int| unowned(d, c) implies #[trigger] unowned(d2, c) by {
        assert forall|id: int, p: int|
            live(d2, id) && 0 <= p < owned(d2, id).len() implies #[trigger] owned(d2, id)[p] as int != c by {
            assert(same_file(d, d2, id));
            assert(owned(d, id)[p] as int != c);
        }
    }
}

/// A file with a zero tail grows by zero bytes.
pub proof fn lemma_extended(d: Seq<Seq<u8>>, id: int, n: int)
    requires
        inode(d, id).size <= n,
    ensures
        extended(d, id, n).len() == n,
        extended(d, id, n).take(inode(d, id).size as int) == file(d, id),
        zero_tail(d, id) ==> extended(d, id, n) == file(d, id) + Seq::new(
            (n - inode(d, id).size) as nat,
            |k: int| 0u8,
        ),
{
    reveal(extended);
    reveal(file);
    reveal(zero_tail);
    let m = inode(d, id);
    let e = extended(d, id, n);
    assert(e.take(m.size as int) =~= file(d, id));
    if zero_tail(d, id) {
        assert forall|k: int| m.size <= k < n implies e[k] == 0 by {
            if k < 512 * m.blocks() {
                assert(m.raw_at(d, k) == 0);
            }
        }
        assert(e =~= file(d, id) + Seq::new((n - m.size) as nat, |k: int| 0u8));
    }
}

/// A disk inode was replaced by one whose blocks are among those of the one before.
pub proof fn lemma_replace_inode(d: Seq<Seq<u8>>, id: int, m: InodeModel)
    requires
        disk_ok(d),
        live(d, id),
        DiskInode::encode(m).len() == 132,
        DiskInode::decode(DiskInode::encode(m)) == m,
        m.direct.len() == 28,
        m.size == 0 || (m.size <= inode(d, id).size && m.direct == inode(d, id).direct
            && m.indirect1 == inode(d, id).indirect1 && m.indirect2 == inode(d, id).indirect2),
    ensures
        disk_ok(put_inode(d, id, m)),
        others_same(d, put_inode(d, id, m), id),
        live(put_inode(d, id, m), id),
        inode(put_inode(d, id, m), id) == m,
        free_data(put_inode(d, id, m)) == free_data(d),
        file(put_inode(d, id, m), id) == file(d, id).take(m.size as int),
        owned(put_inode(d, id, m), id).len() <= owned(d, id).len(),
        owned(put_inode(d, id, m), id) == owned(d, id).take(
            owned(put_inode(d, id, m), id).len() as int,
        ),
        m.size == 0 ==> owned(put_inode(d, id, m), id) == Seq::<u32>::empty(),
        m.size == inode(d, id).size || m.size == 0 ==> zero_tail(d, id) ==> zero_tail(
            put_inode(d, id, m),
            id,
        ),
        m.size == 0 ==> zero_tail(put_inode(d, id, m), id),
        forall|b: int| #[trigger] in_data_area(d, b) ==> taken(put_inode(d, id, m), b) == taken(d, b)
            && put_inode(d, id, m)[b] == d[b],
{
    reveal(disk_ok);
    let d2 = put_inode(d, id, m);
    let m0 = inode(d, id);
    let s = super_block(d);
    assert(inode_ok(d, id));
    lemma_areas(d, id, 0);
    lemma_put_inode(d, id, m);
    let w = inode_block(s, id);
    assert forall|b: int| #[trigger] in_data_area(d, b) implies taken(d2, b) == taken(d, b)
        && d2[b] == d[b] by {
        lemma_areas(d, 0, b);
        lemma_bits_same(d, d2, data_bitmap(s), b - data_area(s));
    }
    assert forall|k: int| 0 <= k < s.inode_bitmap_blocks * 4096 implies #[trigger] bit(d2, 1, k)
        == bit(d, 1, k) by {
        lemma_areas(d, k, 0);
        lemma_bits_same(d, d2, 1, k);
    }
    assert forall|j: int| live(d, j) && j != id implies #[trigger] inode(d2, j) == inode(d, j) by {
        assert(inode_ok(d, j));
    }
    assert forall|j: int, p: int|
        live(d, j) && 0 <= p < owned(d, j).len() implies d2[#[trigger] owned(d, j)[p] as int]
        == d[owned(d, j)[p] as int] && in_data_area(d, owned(d, j)[p] as int) by {
        assert(inode_ok(d, j));
        assert(in_data_area(d, owned(d, j)[p] as int));
    }
    assert(m0.wf(d)) by {
        reveal(inode_wf);
    }
    assert forall|p: int| 0 <= p < m0.owned(d).len() implies d2[#[trigger] m0.owned(d)[p] as int]
        == d[m0.owned(d)[p] as int] by {
        reveal(owned);
        assert(owned(d, id)[p] == m0.owned(d)[p]);
    }
    lemma_shrink(d, d2, m0, m);
    assert(owned(d2, id) == m.owned(d2) && owned(d, id) == m0.owned(d)) by {
        reveal(owned);
    }
    assert(file(d2, id) == m.content(d2) && file(d, id) == m0.content(d)) by {
        reveal(file);
    }
    assert(zero_tail(d2, id) == m.tail_zero(d2) && zero_tail(d, id) == m0.tail_zero(d)) by {
        reveal(zero_tail);
    }
    assert(inode_wf(d2, id)) by {
        reveal(inode_wf);
    }
    let o = owned(d, id);
    let o2 = owned(d2, id);
    assert forall|p: int| 0 <= p < o2.len() implies {
        let b = #[trigger] o2[p] as int;
        &&& in_data_area(d, b)
        &&& taken(d, b)
        &&& forall|j: int, q: int|
            live(d, j) && j != id && 0 <= q < owned(d, j).len() ==> #[trigger] owned(d, j)[q] as int
                != b
    } by {
        assert(o2[p] == o[p]);
        assert forall|j: int, q: int|
            live(d, j) && j != id && 0 <= q < owned(d, j).len() implies #[trigger] owned(
            d,
            j,
        )[q] as int != o2[p] as int by {
            assert(disjoint(d, id, j));
        }
    }
    lemma_change_file(d, d2, id);
}

/// What is left of a file whose disk inode became smaller.
proof fn lemma_shrink(d: Seq<Seq<u8>>, d2: Seq<Seq<u8>>, m0: InodeModel, m: InodeModel)
    requires
        m0.wf(d),
        d2.len() == d.len(),
        full_blocks(d2),
        m.direct.len() == 28,
        m.size == 0 || (m.size <= m0.size && m.direct == m0.direct && m.indirect1 == m0.indirect1
            && m.indirect2 == m0.indirect2),
        forall|p: int|
            0 <= p < m0.owned(d).len() ==> d2[#[trigger] m0.owned(d)[p] as int] == d[m0.owned(
                d,
            )[p] as int],
    ensures
        m.wf(d2),
        m.owned(d2).len() <= m0.owned(d).len(),
        m.owned(d2) == m0.owned(d).take(m.owned(d2).len() as int),
        m.size == 0 ==> m.owned(d2) == Seq::<u32>::empty(),
        m.content(d2) == m0.content(d).take(m.size as int),
        m.size == m0.size && m.size > 0 && m0.tail_zero(d) ==> m.tail_zero(d2),
        m.size == 0 ==> m.tail_zero(d2),
{
    if m.size == 0 {
        assert(m.owned(d2) =~= Seq::<u32>::empty());
        assert(m.content(d2) =~= m0.content(d).take(0));
        assert(m.owned(d2) =~= m0.owned(d).take(0));
    } else {
        lemma_same_index(m0, d, d2);
        lemma_total_monotonic(m.blocks(), m0.blocks());
        assert forall|p: int| 0 <= p < m.owned(d2).len() implies #[trigger] m.owned(d2)[p]
            == m0.owned(d)[p] by {
            assert(m.owned(d2)[p] == m.owned_at(d2, p));
            assert(m0.owned(d2)[p] == m0.owned_at(d2, p));
        }
        assert(m.owned(d2) =~= m0.owned(d).take(m.owned(d2).len() as int));
        assert forall|k: int| 0 <= k < 512 * m.blocks() implies #[trigger] m.raw_at(d2, k)
            == m0.raw_at(d, k) by {
            lemma_data_block(m0, d, k / 512);
            assert(m0.block_of(d2, k / 512) == m0.block_of(d, k / 512));
        }
        assert forall|k: int| 0 <= k < m.size implies m.content(d2)[k] == m0.content(d)[k] by {
            assert(m.raw_at(d2, k) == m0.raw_at(d, k));
        }
        assert(m.content(d2) =~= m0.content(d).take(m.size as int));
        if m.size == m0.size && m0.tail_zero(d) {
            assert forall|k: int| m.size <= k < 512 * m.blocks() implies #[trigger] m.raw_at(d2, k)
                == 0 by {
                assert(m0.raw_at(d, k) == 0);
            }
        }
    }
}

/// A new inode: its bit was set and its disk inode written.
pub proof fn lemma_new_inode(d: Seq<Seq<u8>>, id: int, kind: DiskInodeType)
    requires
        disk_ok(d),
        inode_exists(d, id),
        !live(d, id),
        DiskInode::encode(empty_inode(kind)).len() == 132,
        DiskInode::decode(DiskInode::encode(empty_inode(kind))) == empty_inode(kind),
    ensures
        ({
            let d2 = put_inode(with_bit(d, 1, id, true), id, empty_inode(kind));
            &&& disk_ok(d2)
            &&& others_same(d, d2, id)
            &&& live(d2, id)
            &&& inode(d2, id) == empty_inode(kind)
            &&& file(d2, id) == Seq::<u8>::empty()
            &&& owned(d2, id) == Seq::<u32>::empty()
            &&& zero_tail(d2, id)
            &&& free_data(d2) == free_data(d)
        }),
{
    reveal(disk_ok);
    let m = empty_inode(kind);
    let s = super_block(d);
    let d1 = with_bit(d, 1, id, true);
    let d2 = put_inode(d1, id, m);
    lemma_areas(d, id, 0);
    lemma_with_bit(d, 1, id, true);
    lemma_same_super(d, d1);
    assert(geometry_ok(d1));
    lemma_put_inode(d1, id, m);
    assert forall|b: int| #[trigger] in_data_area(d, b) implies taken(d2, b) == taken(d, b)
        && d2[b] == d[b] by {
        lemma_areas(d, 0, b);
        lemma_bits_same(d, d2, data_bitmap(s), b - data_area(s));
    }
    assert forall|k: int| 0 <= k < s.inode_bitmap_blocks * 4096 implies #[trigger] bit(d2, 1, k)
        == bit(d1, 1, k) by {
        lemma_areas(d, k, 0);
        lemma_bits_same(d1, d2, 1, k);
    }
    assert forall|k: int|
        0 <= k < s.inode_bitmap_blocks * 4096 && k != id implies #[trigger] bit(d2, 1, k) == bit(
        d,
        1,
        k,
    ) by {
        lemma_areas(d, k, 0);
        assert(bit(d2, 1, k) == bit(d1, 1, k));
    }
    assert(live(d2, id)) by {
        assert(bit(d2, 1, id) == bit(d1, 1, id));
    }
    assert forall|j: int| live(d, j) && j != id implies #[trigger] inode(d2, j) == inode(d, j) by {
        assert(inode_ok(d, j));
        lemma_areas(d, j, 0);
        lemma_same_inode(d, d1, j);
    }
    assert forall|j: int, p: int|
        live(d, j) && j != id && 0 <= p < owned(d, j).len() implies d2[#[trigger] owned(
        d,
        j,
    )[p] as int] == d[owned(d, j)[p] as int] by {
        assert(inode_ok(d, j));
        assert(in_data_area(d, owned(d, j)[p] as int));
    }
    assert(inode(d2, id) == m);
    assert(m.owned(d2) =~= Seq::<u32>::empty());
    assert(m.content(d2) =~= Seq::<u8>::empty());
    assert(owned(d2, id) == m.owned(d2)) by {
        reveal(owned);
    }
    assert(inode_wf(d2, id)) by {
        reveal(inode_wf);
    }
    assert(file(d2, id) == m.content(d2)) by {
        reveal(file);
    }
    assert(zero_tail(d2, id)) by {
        reveal(zero_tail);
    }
    lemma_change_file(d, d2, id);
}

/// Data was written to the blocks of a file.
pub proof fn lemma_write_file(
    d: Seq<Seq<u8>>,
    d2: Seq<Seq<u8>>,
    id: int,
    off: int,
    data: Seq<u8>,
)
    requires
        disk_ok(d),
        live(d, id),
        wrote(inode(d, id), d, d2, off, data),
        0 <= off,
        off + data.len() <= inode(d, id).size,
    ensures
        disk_ok(d2),
        others_same(d, d2, id),
        live(d2, id),
        inode(d2, id) == inode(d, id),
        owned(d2, id) == owned(d, id),
        file(d2, id) == splice(file(d, id), off, data),
        zero_tail(d, id) ==> zero_tail(d2, id),
        free_data(d2) == free_data(d),
{
    reveal(disk_ok);
    let m = inode(d, id);
    let s = super_block(d);
    assert(inode_ok(d, id));
    assert(m.wf(d)) by {
        reveal(inode_wf);
    }
    lemma_wrote(m, d, d2, off, data);
    let o = owned(d, id);
    assert(o == m.owned(d)) by {
        reveal(owned);
    }
    lemma_areas(d, id, 0);
    assert forall|b: int|
        0 <= b < d.len() && (forall|p: int| 0 <= p < o.len() ==> #[trigger] o[p] as int != b) implies
        #[trigger] d2[b] == d[b] by {
        assert forall|i: int| 0 <= i < m.blocks() implies #[trigger] m.block_of(d, i) != b by {
            lemma_data_block(m, d, i);
            assert(o[pos_of(i)] as int != b);
        }
    }
    assert forall|b: int| 0 <= b < data_area(s) implies #[trigger] d2[b] == d[b] by {
        assert forall|p: int| 0 <= p < o.len() implies #[trigger] o[p] as int != b by {
            assert(in_data_area(d, o[p] as int));
        }
    }
    lemma_same_super(d, d2);
    lemma_same_inode(d, d2, id);
    assert forall|b: int| #[trigger] in_data_area(d, b) implies taken(d2, b) == taken(d, b) by {
        lemma_areas(d, 0, b);
        lemma_bits_same(d, d2, data_bitmap(s), b - data_area(s));
    }
    assert forall|b: int| #[trigger] in_data_area(d, b) && !taken(d, b) implies d2[b] == d[b] by {
        lemma_areas(d, 0, b);
        assert forall|p: int| 0 <= p < o.len() implies #[trigger] o[p] as int != b by {
            assert(taken(d, o[p] as int));
        }
    }
    assert forall|k: int| 0 <= k < s.inode_bitmap_blocks * 4096 implies #[trigger] bit(d2, 1, k)
        == bit(d, 1, k) by {
        lemma_areas(d, k, 0);
        lemma_bits_same(d, d2, 1, k);
    }
    assert(live(d2, id)) by {
        assert(bit(d2, 1, id) == bit(d, 1, id));
    }
    assert forall|j: int| live(d, j) && j != id implies #[trigger] inode(d2, j) == inode(d, j) by {
        assert(inode_ok(d, j));
        lemma_areas(d, j, 0);
        lemma_same_inode(d, d2, j);
    }
    assert forall|j: int, p: int|
        live(d, j) && j != id && 0 <= p < owned(d, j).len() implies d2[#[trigger] owned(
        d,
        j,
    )[p] as int] == d[owned(d, j)[p] as int] by {
        assert(inode_ok(d, j));
        assert(disjoint(d, id, j));
        let b = owned(d, j)[p] as int;
        assert(in_data_area(d, b));
        assert forall|q: int| 0 <= q < o.len() implies #[trigger] o[q] as int != b by {
            assert(owned(d, id)[q] != owned(d, j)[p]);
        }
    }
    assert(owned(d2, id) == o) by {
        reveal(owned);
    }
    assert(inode_wf(d2, id)) by {
        reveal(inode_wf);
    }
    assert forall|p: int| 0 <= p < owned(d2, id).len() implies {
        let b = #[trigger] owned(d2, id)[p] as int;
        &&& in_data_area(d, b)
        &&& taken(d, b)
        &&& forall|j: int, q: int|
            live(d, j) && j != id && 0 <= q < owned(d, j).len() ==> #[trigger] owned(d, j)[q] as int
                != b
    } by {
        assert forall|j: int, q: int|
            live(d, j) && j != id && 0 <= q < owned(d, j).len() implies #[trigger] owned(
            d,
            j,
        )[q] as int != o[p] as int by {
            assert(disjoint(d, id, j));
        }
    }
    lemma_change_file(d, d2, id);
    lemma_written_content(d, d2, id, off, data);
}

/// What a file holds after data was written to its blocks.
proof fn lemma_written_content(
    d: Seq<Seq<u8>>,
    d2: Seq<Seq<u8>>,
    id: int,
    off: int,
    data: Seq<u8>,
)
    requires
        inode_wf(d, id),
        inode(d2, id) == inode(d, id),
        wrote(inode(d, id), d, d2, off, data),
        0 <= off,
        off + data.len() <= inode(d, id).size,
    ensures
        file(d2, id) == splice(file(d, id), off, data),
        zero_tail(d, id) ==> zero_tail(d2, id),
{
    reveal(file);
    reveal(zero_tail);
    reveal(inode_wf);
    let m = inode(d, id);
    lemma_wrote(m, d, d2, off, data);
    assert forall|k: int| 0 <= k < m.size implies m.content(d2)[k] == splice(
        m.content(d),
        off,
        data,
    )[k] by {
        assert(m.raw_at(d2, k) == if off <= k < off + data.len() {
            data[k - off]
        } else {
            m.raw_at(d, k)
        });
    }
    assert(m.content(d2) =~= splice(m.content(d), off, data));
    if m.tail_zero(d) {
        assert forall|k: int| m.size <= k < 512 * m.blocks() implies #[trigger] m.raw_at(d2, k)
            == 0 by {
            assert(m.raw_at(d, k) == 0);
        }
    }
}

/// A file took new blocks: its disk inode was written after them.
pub proof fn lemma_grow_file(
    d: Seq<Seq<u8>>,
    d2: Seq<Seq<u8>>,
    id: int,
    m2: InodeModel,
    v: Seq<u32>,
)
    requires
        disk_ok(d),
        live(d, id),
        DiskInode::encode(m2).len() == 132,
        DiskInode::decode(DiskInode::encode(m2)) == m2,
        m2.size >= inode(d, id).size,
        m2.wf(d2),
        m2.owned(d2) == owned(d, id) + v,
        same_but_index(d, d2, m2.owned(d2), m2.owned(d2).len() as int),
        forall|i: int|
            0 <= i < v.len() ==> {
                let b = #[trigger] v[i] as int;
                in_data_area(d, b) && taken(d, b) && unowned(d, b) && d[b] == zero_block()
            },
    ensures
        disk_ok(put_inode(d2, id, m2)),
        others_same(d, put_inode(d2, id, m2), id),
        live(put_inode(d2, id, m2), id),
        inode(put_inode(d2, id, m2), id) == m2,
        owned(put_inode(d2, id, m2), id) == owned(d, id) + v,
        file(put_inode(d2, id, m2), id) == extended(d, id, m2.size as int),
        zero_tail(d, id) ==> zero_tail(put_inode(d2, id, m2), id),
        free_data(put_inode(d2, id, m2)) == free_data(d),
{
    reveal(disk_ok);
    let d3 = put_inode(d2, id, m2);
    let m = inode(d, id);
    let s = super_block(d);
    let o = m2.owned(d2);
    let n = owned(d, id).len() as int;
    assert(inode_ok(d, id));
    lemma_areas(d, id, 0);
    assert forall|p: int| 0 <= p < o.len() implies in_data_area(d, #[trigger] o[p] as int)
        && taken(d, o[p] as int) by {
        if p < n {
            assert(o[p] == owned(d, id)[p]);
        } else {
            assert(o[p] == v[p - n]);
        }
    }
    assert forall|b: int|
        0 <= b < d.len() && (forall|p: int| 0 <= p < o.len() ==> #[trigger] o[p] as int != b) implies
        #[trigger] d2[b] == d[b] by {}
    assert forall|b: int| 0 <= b < data_area(s) implies #[trigger] d2[b] == d[b] by {
        assert forall|p: int| 0 <= p < o.len() implies #[trigger] o[p] as int != b by {
            assert(in_data_area(d, o[p] as int));
        }
    }
    lemma_same_super(d, d2);
    assert(geometry_ok(d2));
    assert(inode_exists(d2, id));
    lemma_put_inode(d2, id, m2);
    let w = inode_block(s, id);
    assert forall|b: int| #[trigger] in_data_area(d, b) implies taken(d3, b) == taken(d, b)
        && d3[b] == d2[b] by {
        lemma_areas(d, 0, b);
        lemma_bits_same(d, d3, data_bitmap(s), b - data_area(s));
    }
    assert forall|b: int| #[trigger] in_data_area(d, b) && !taken(d, b) implies d3[b] == d[b] by {
        lemma_areas(d, 0, b);
        assert forall|p: int| 0 <= p < o.len() implies #[trigger] o[p] as int != b by {
            assert(taken(d, o[p] as int));
        }
    }
    assert forall|k: int| 0 <= k < s.inode_bitmap_blocks * 4096 implies #[trigger] bit(d3, 1, k)
        == bit(d, 1, k) by {
        lemma_areas(d, k, 0);
        lemma_bits_same(d, d3, 1, k);
    }
    assert(live(d3, id)) by {
        assert(bit(d3, 1, id) == bit(d, 1, id));
    }
    assert forall|j: int| live(d, j) && j != id implies #[trigger] inode(d3, j) == inode(d, j) by {
        assert(inode_ok(d, j));
        lemma_areas(d, j, 0);
        lemma_same_inode(d, d2, j);
        assert(inode_exists(d2, j));
    }
    assert forall|j: int, q: int, p: int|
        live(d, j) && j != id && 0 <= q < owned(d, j).len() && 0 <= p < o.len() implies
        #[trigger] owned(d, j)[q] != #[trigger] o[p] by {
        if p < n {
            assert(disjoint(d, id, j));
            assert(o[p] == owned(d, id)[p]);
        } else {
            assert(unowned(d, v[p - n] as int));
        }
    }
    assert forall|j: int, p: int|
        live(d, j) && j != id && 0 <= p < owned(d, j).len() implies d3[#[trigger] owned(
        d,
        j,
    )[p] as int] == d[owned(d, j)[p] as int] by {
        assert(inode_ok(d, j));
        let b = owned(d, j)[p] as int;
        assert(in_data_area(d, b));
        assert(forall|q: int| 0 <= q < o.len() ==> #[trigger] o[q] as int != b);
    }
    assert forall|q: int| 0 <= q < o.len() implies d3[#[trigger] o[q] as int]
        == d2[o[q] as int] by {
        assert(in_data_area(d, o[q] as int));
    }
    lemma_same_index(m2, d2, d3);
    assert(owned(d3, id) == o) by {
        reveal(owned);
    }
    assert(inode_wf(d3, id)) by {
        reveal(inode_wf);
    }
    lemma_change_file(d, d3, id);
    lemma_grown_content(d, d2, d3, id, m2, v);
}

/// What a file holds after it took new blocks.
proof fn lemma_grown_content(
    d: Seq<Seq<u8>>,
    d2: Seq<Seq<u8>>,
    d3: Seq<Seq<u8>>,
    id: int,
    m2: InodeModel,
    v: Seq<u32>,
)
    requires
        inode_wf(d, id),
        m2.wf(d2),
        inode(d3, id) == m2,
        m2.size >= inode(d, id).size,
        m2.owned(d2) == owned(d, id) + v,
        same_but_index(d, d2, m2.owned(d2), m2.owned(d2).len() as int),
        d3.len() == d2.len(),
        full_blocks(d3),
        forall|q: int|
            0 <= q < m2.owned(d2).len() ==> d3[#[trigger] m2.owned(d2)[q] as int] == d2[m2.owned(
                d2,
            )[q] as int],
        forall|i: int| 0 <= i < v.len() ==> d[#[trigger] v[i] as int] == zero_block(),
    ensures
        file(d3, id) == extended(d, id, m2.size as int),
        zero_tail(d, id) ==> zero_tail(d3, id),
{
    reveal(inode_wf);
    reveal(file);
    reveal(zero_tail);
    reveal(extended);
    let m = inode(d, id);
    let o = m2.owned(d2);
    assert(owned(d, id) == m.owned(d)) by {
        reveal(owned);
    }
    lemma_same_index(m2, d2, d3);
    assert forall|k: int| 0 <= k < 512 * m2.blocks() implies #[trigger] m2.raw_at(d3, k) == (if k
        < 512 * m.blocks() {
        m.raw_at(d, k)
    } else {
        0
    }) by {
        let i = k / 512;
        lemma_data_block(m2, d2, i);
        let b = o[pos_of(i)];
        assert(m2.block_of(d3, i) == m2.block_of(d2, i));
        assert(d2[b as int] == d[b as int]) by {
            assert forall|q: int| 0 <= q < o.len() && is_index_pos(q) implies #[trigger] o[q]
                != b by {
                assert(q != pos_of(i));
            }
        }
        if k < 512 * m.blocks() {
            lemma_data_block(m, d, i);
            assert(o[pos_of(i)] == m.owned(d)[pos_of(i)]);
        } else {
            assert(pos_of(i) >= m.owned(d).len()) by {
                lemma_pos_not_before(i, m.blocks());
            }
            assert(o[pos_of(i)] == v[pos_of(i) - m.owned(d).len()]);
        }
    }
    assert forall|k: int| 0 <= k < m2.size implies m2.content(d3)[k] == extended(
        d,
        id,
        m2.size as int,
    )[k] by {
        assert(m2.raw_at(d3, k) == (if k < 512 * m.blocks() {
            m.raw_at(d, k)
        } else {
            0
        }));
    }
    assert(m2.content(d3) =~= extended(d, id, m2.size as int));
    if m.tail_zero(d) {
        assert forall|k: int| m2.size <= k < 512 * m2.blocks() implies #[trigger] m2.raw_at(d3, k)
            == 0 by {
            if k < 512 * m.blocks() {
                assert(m.raw_at(d, k) == 0);
            }
        }
    }
}

/// A block of data past the end of a file stands behind all of its blocks.
proof fn lemma_pos_not_before(i: int, n: int)
    requires
        0 <= n <= i,
    ensures
        pos_of(i) >= total_blocks_of(n),
{
}

} // verus!
