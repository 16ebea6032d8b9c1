//! What holds of names, files and blocks after each operation of the file system.
use super::bitmap::{bit, word64};
use super::block_dev::full_blocks;
use super::bytes::{le32, le32_bytes, le64, word, Record};
use super::disk::{file, free_data, inode, inode_offset, live, owned, same_file, super_block};
use super::efs::{plannable, planned};
use super::laws::{law_find_after_append, law_find_after_remove};
use super::layout::{
    cleared, inode_words, lemma_words, transfer_len, words_bytes, DirEntry, DiskInode,
    DiskInodeType, SuperBlock,
};
use super::model::{data_blocks_of, total_blocks_of, InodeModel};
use super::tree::{entries, entries_of, find_from, has_name, lemma_find_from, name_of};
use super::vfs::{created, linked, unlinked, was_read};
use vstd::prelude::*;

verus! {

/// A number is stored with its least significant byte first.
pub proof fn law_byte_order(b: Seq<u8>, off: int, x: u32)
    ensures
        le32(b, off) == b[off] + 256 * b[off + 1] + 65536 * b[off + 2] + 16777216 * b[off + 3],
        le64(b, off) == le32(b, off) + 0x1_0000_0000 * le32(b, off + 4),
        le32_bytes(x).len() == 4,
        x == le32_bytes(x)[0] + 256 * le32_bytes(x)[1] + 65536 * le32_bytes(x)[2] + 16777216
            * le32_bytes(x)[3],
{
}

/// A transfer stops at the end of the buffer or at the end of the file, whichever comes first,
/// and one that starts behind the end of the file moves nothing.
pub proof fn law_transfer(off: int, len: int, size: int)
    requires
        0 <= off,
        0 <= len,
        0 <= size,
    ensures
        ({
            let n = transfer_len(off, len, size);
            &&& 0 <= n <= len
            &&& n == 0 || off + n <= size
            &&& n == len || off + n >= size
        }),
{
}

/// A file takes the fewest blocks of data that hold its bytes. The next block of data takes
/// an index block with it where the blocks that are there have no room for its number: the
/// first behind the 28 direct ones, the first behind the 128 of the single index block, which
/// takes two, and every 128th from there.
pub proof fn law_blocks(size: int, n: int)
    requires
        0 <= size,
        0 <= n,
    ensures
        512 * data_blocks_of(size) >= size,
        512 * (data_blocks_of(size) - 1) < size,
        total_blocks_of(0) == 0,
        total_blocks_of(n + 1) == total_blocks_of(n) + if n == 156 {
            3
        } else if n == 28 || n > 156 && (n - 156) % 128 == 0 {
            2int
        } else {
            1
        },
{
}

/// Where byte `k` of a file lies: at `k % 512` of a block of data whose number is one of the
/// direct ones, or stands in the single index block, or in an index block that the double
/// index block leads to.
pub proof fn law_byte_place(m: InodeModel, d: Seq<Seq<u8>>, k: int)
    requires
        0 <= k < m.size,
    ensures
        m.content(d).len() == m.size,
        ({
            let i = k / 512;
            let j = i - 156;
            let b = if i < 28 {
                m.direct[i]
            } else if i < 156 {
                le32(d[m.indirect1 as int], 4 * (i - 28))
            } else {
                le32(d[le32(d[m.indirect2 as int], 4 * (j / 128)) as int], 4 * (j % 128))
            };
            m.content(d)[k] == d[b as int][k % 512]
        }),
{
}

/// Where the fields of the super block, of a disk inode and of a directory entry stand.
pub proof fn law_records(b: Seq<u8>, i: int)
    requires
        0 <= i < 28,
    ensures
        SuperBlock::decode(b).magic == le32(b, 0),
        SuperBlock::decode(b).total_blocks == le32(b, 4),
        SuperBlock::decode(b).inode_bitmap_blocks == le32(b, 8),
        SuperBlock::decode(b).inode_area_blocks == le32(b, 12),
        SuperBlock::decode(b).data_bitmap_blocks == le32(b, 16),
        SuperBlock::decode(b).data_area_blocks == le32(b, 20),
        DiskInode::decode(b).size == le32(b, 0),
        DiskInode::decode(b).direct.len() == 28,
        DiskInode::decode(b).direct[i] == le32(b, 4 + 4 * i),
        DiskInode::decode(b).indirect1 == le32(b, 116),
        DiskInode::decode(b).indirect2 == le32(b, 120),
        DiskInode::decode(b).kind == DiskInodeType::File <==> b[124] == 0,
        DiskInode::decode(b).nlink == le32(b, 128),
        b.len() == 32 ==> DirEntry::decode(b).name.len() == 28 && DirEntry::decode(b).name[i]
            == b[i],
        DirEntry::decode(b).inode_id == le32(b, 28),
{
}

/// The blocks of a new file system are divided without a rest into the super block, the inode
/// bitmap, the inode area, the data bitmap and the data area. The inode area holds the inodes
/// of the bitmap, three to a block, and has no block too many. So has the data bitmap, with a
/// bit for every block of data.
pub proof fn law_division(total_blocks: u32, inode_bitmap_blocks: u32)
    requires
        plannable(total_blocks, inode_bitmap_blocks),
    ensures
        ({
            let s = planned(total_blocks, inode_bitmap_blocks);
            &&& s.magic == 0x3b800001
            &&& s.total_blocks == total_blocks
            &&& s.inode_bitmap_blocks == inode_bitmap_blocks
            &&& 1 + s.inode_bitmap_blocks + s.inode_area_blocks + s.data_bitmap_blocks
                + s.data_area_blocks == total_blocks
            &&& 3 * s.inode_area_blocks >= 4096 * inode_bitmap_blocks
            &&& 3 * (s.inode_area_blocks - 1) < 4096 * inode_bitmap_blocks
            &&& s.data_area_blocks <= 4096 * s.data_bitmap_blocks
            &&& s.data_bitmap_blocks > 0 ==> s.data_area_blocks + 1 > 4096 * (
            s.data_bitmap_blocks - 1)
        }),
{
}

/// A file that was created is found under its name. It is empty, it is a file, it has one
/// link, and its number is the first that was free. Every other name leads where it led, and
/// every other file has the bytes that it had.
#[verifier::spinoff_prover]
#[verifier::rlimit(60)]
pub proof fn law_created(
    d: Seq<Seq<u8>>,
    d2: Seq<Seq<u8>>,
    dir: int,
    id: int,
    name: Seq<u8>,
    other: Seq<u8>,
    j: int,
)
    requires
        created(d, d2, dir, id, name),
        0 <= id <= u32::MAX,
        name.len() <= 27,
        forall|i: int| 0 <= i < name.len() ==> name[i] != 0,
        !has_name(entries(d, dir), name),
        other != name,
    ensures
        ({
            let es = entries(d, dir);
            let es2 = entries(d2, dir);
            &&& has_name(es2, name)
            &&& es2[find_from(es2, name, 0)].inode_id == id
            &&& file(d2, id).len() == 0
            &&& inode(d2, id).size == 0
            &&& inode(d2, id).kind == DiskInodeType::File
            &&& inode(d2, id).nlink == 1
            &&& !live(d, id)
            &&& 0 <= j < id ==> live(d, j)
            &&& has_name(es2, other) == has_name(es, other)
            &&& has_name(es, other) ==> es2[find_from(es2, other, 0)] == es[find_from(es, other, 0)]
            &&& j != id ==> (live(d2, j) <==> live(d, j))
            &&& j != dir && live(d, j) ==> file(d2, j) == file(d, j) && inode(d2, j) == inode(d, j)
        }),
{
    let es = entries(d, dir);
    law_find_after_append(es, name, other, id as u32);
    lemma_find_from(es, other, 0);
    assert(j != dir && live(d, j) ==> same_file(d, d2, j));
}

/// After a link the file is found under both names, it has one link more and the bytes that
/// it had. Every third name leads where it led, and every other file but the directory has
/// the bytes that it had.
#[verifier::spinoff_prover]
#[verifier::rlimit(60)]
pub proof fn law_linked(
    d: Seq<Seq<u8>>,
    d2: Seq<Seq<u8>>,
    dir: int,
    old_name: Seq<u8>,
    new_name: Seq<u8>,
    other: Seq<u8>,
    j: int,
)
    requires
        linked(d, d2, dir, old_name, new_name),
        new_name.len() <= 27,
        forall|i: int| 0 <= i < new_name.len() ==> new_name[i] != 0,
        has_name(entries(d, dir), old_name),
        !has_name(entries(d, dir), new_name),
        other != new_name,
    ensures
        ({
            let es = entries(d, dir);
            let es2 = entries(d2, dir);
            let id = es[find_from(es, old_name, 0)].inode_id as int;
            &&& has_name(es2, new_name)
            &&& es2[find_from(es2, new_name, 0)].inode_id == id
            &&& has_name(es2, old_name)
            &&& es2[find_from(es2, old_name, 0)].inode_id == id
            &&& inode(d2, id).nlink == inode(d, id).nlink + 1
            &&& inode(d2, id).size == inode(d, id).size
            &&& inode(d2, id).kind == inode(d, id).kind
            &&& file(d2, id) == file(d, id)
            &&& has_name(es2, other) == has_name(es, other)
            &&& has_name(es, other) ==> es2[find_from(es2, other, 0)] == es[find_from(es, other, 0)]
            &&& live(d2, j) <==> live(d, j)
            &&& j != dir && j != id && live(d, j) ==> file(d2, j) == file(d, j) && inode(d2, j)
                == inode(d, j)
        }),
{
    let es = entries(d, dir);
    let id = es[find_from(es, old_name, 0)].inode_id;
    law_find_after_append(es, new_name, old_name, id);
    law_find_after_append(es, new_name, other, id);
    lemma_find_from(es, other, 0);
    lemma_find_from(es, old_name, 0);
    assert(j != dir && j != id && live(d, j) ==> same_file(d, d2, j));
}

/// After an unlink the name is gone, if it stood there once, and every other name leads where
/// it led. The file has one link less. With a link left it has the bytes that it had; without
/// it is empty, and all its blocks are free.
#[verifier::spinoff_prover]
#[verifier::rlimit(60)]
pub proof fn law_unlinked(
    d: Seq<Seq<u8>>,
    d2: Seq<Seq<u8>>,
    dir: int,
    name: Seq<u8>,
    other: Seq<u8>,
    j: int,
)
    requires
        unlinked(d, d2, dir, name),
        has_name(entries(d, dir), name),
        other != name,
    ensures
        ({
            let es = entries(d, dir);
            let es2 = entries(d2, dir);
            let k = find_from(es, name, 0);
            let id = es[k].inode_id as int;
            &&& es2.len() == es.len() - 1
            &&& (forall|i: int| 0 <= i < es.len() && i != k ==> name_of(#[trigger] es[i]) != name)
                ==> !has_name(es2, name)
            &&& has_name(es2, other) == has_name(es, other)
            &&& has_name(es, other) ==> es2[find_from(es2, other, 0)] == es[find_from(es, other, 0)]
            &&& inode(d2, id).nlink == inode(d, id).nlink - 1
            &&& inode(d2, id).kind == inode(d, id).kind
            &&& inode(d, id).nlink > 1 ==> {
                &&& file(d2, id) == file(d, id)
                &&& inode(d2, id).size == inode(d, id).size
                &&& free_data(d2) == free_data(d)
            }
            &&& inode(d, id).nlink == 1 ==> {
                &&& file(d2, id).len() == 0
                &&& inode(d2, id).size == 0
                &&& free_data(d2) == free_data(d) + owned(d, id).len()
            }
            &&& live(d2, j) <==> live(d, j)
            &&& j != dir && j != id && live(d, j) ==> file(d2, j) == file(d, j) && inode(d2, j)
                == inode(d, j)
        }),
{
    let es = entries(d, dir);
    let id = es[find_from(es, name, 0)].inode_id as int;
    law_find_after_remove(es, name, other);
    lemma_find_from(es, name, 0);
    assert(j != dir && j != id && live(d, j) ==> same_file(d, d2, j));
}

/// An inode that was cleared has no bytes and no block left, and keeps its kind and its links.
pub proof fn law_cleared(m: InodeModel, d: Seq<Seq<u8>>, i: int)
    requires
        0 <= i < 28,
        m.direct.len() == 28,
    ensures
        cleared(m).size == 0,
        cleared(m).owned(d).len() == 0,
        cleared(m).content(d).len() == 0,
        cleared(m).kind == m.kind,
        cleared(m).nlink == m.nlink,
        512 * i < m.size ==> cleared(m).direct[i] == 0,
        512 * 28 < m.size ==> cleared(m).indirect1 == 0,
        512 * 156 < m.size ==> cleared(m).indirect2 == 0,
{
}

/// An entry of a directory is 32 bytes of its file: 28 for the name and four for the number.
pub proof fn law_entry_bytes(bytes: Seq<u8>, i: int, j: int)
    requires
        0 <= i,
        32 * i + 32 <= bytes.len(),
        0 <= j < 28,
    ensures
        entries_of(bytes).len() == bytes.len() / 32,
        entries_of(bytes)[i].name.len() == 28,
        entries_of(bytes)[i].name[j] == bytes[32 * i + j],
        entries_of(bytes)[i].inode_id == le32(bytes, 32 * i + 28),
{
}

/// How a disk inode is written: 33 words, in which the kind takes one byte, 0 for a file and
/// 1 for a directory, with three zero bytes behind it.
#[verifier::spinoff_prover]
#[verifier::rlimit(60)]
pub proof fn law_inode_bytes(m: InodeModel)
    requires
        m.direct.len() == 28,
    ensures
        DiskInode::encode(m).len() == 132,
        DiskInode::encode(m)[124] == if m.kind == DiskInodeType::Directory {
            1u8
        } else {
            0
        },
        DiskInode::encode(m)[125] == 0,
        DiskInode::encode(m)[126] == 0,
        DiskInode::encode(m)[127] == 0,
        DiskInode::decode(DiskInode::encode(m)) == m,
{
    let w = inode_words(m);
    let b = words_bytes(w);
    lemma_words(w);
    assert(w.len() == 33);
    assert(w[31] == if m.kind == DiskInodeType::Directory {
        1u32
    } else {
        0
    });
    assert(word(b, 0) == w[0] && word(b, 29) == w[29] && word(b, 30) == w[30] && word(b, 32)
        == w[32]);
    assert forall|i: int| 0 <= i < 28 implies le32(b, 4 + 4 * i) == m.direct[i] by {
        assert(word(b, i + 1) == w[i + 1]);
    }
    assert(DiskInode::decode(b).direct =~= m.direct);
}

/// Where the super block and the disk inodes lie: the super block in the first block, and the
/// inodes behind the inode bitmap, three to a block and 132 bytes each.
#[verifier::spinoff_prover]
#[verifier::rlimit(60)]
pub proof fn law_on_disk(d: Seq<Seq<u8>>, id: int)
    requires
        full_blocks(d),
        d.len() > 0,
        0 <= id,
        1 + super_block(d).inode_bitmap_blocks + id / 3 < d.len(),
    ensures
        super_block(d).magic == le32(d[0], 0),
        super_block(d).total_blocks == le32(d[0], 4),
        super_block(d).inode_bitmap_blocks == le32(d[0], 8),
        super_block(d).inode_area_blocks == le32(d[0], 12),
        super_block(d).data_bitmap_blocks == le32(d[0], 16),
        super_block(d).data_area_blocks == le32(d[0], 20),
        ({
            let b = d[1 + super_block(d).inode_bitmap_blocks + id / 3];
            let at = 132 * (id % 3);
            &&& inode(d, id).size == le32(b, at)
            &&& forall|i: int|
                0 <= i < 28 ==> #[trigger] inode(d, id).direct[i] == le32(b, at + 4 + 4 * i)
            &&& inode(d, id).indirect1 == le32(b, at + 116)
            &&& inode(d, id).indirect2 == le32(b, at + 120)
            &&& inode(d, id).kind == DiskInodeType::File <==> b[at + 124] == 0
            &&& inode(d, id).nlink == le32(b, at + 128)
        }),
{
    reveal(super_block);
    reveal(inode);
    let b = d[1 + super_block(d).inode_bitmap_blocks + id / 3];
    let at = 132 * (id % 3);
    assert(at == inode_offset(id));
    assert(b.len() == 512 && d[0].len() == 512);
    let r = b.subrange(at, at + 132);
    assert forall|i: int| 0 <= i < 132 implies r[i] == b[at + i] by {}
}

/// Bit `k` of a bitmap is bit `k % 8` of a byte, eight to a byte and 4096 to a block, in order.
#[verifier::spinoff_prover]
#[verifier::rlimit(60)]
pub proof fn law_bit_place(d: Seq<Seq<u8>>, start: int, k: int)
    requires
        0 <= k,
    ensures
        bit(d, start, k) <==> (d[start + k / 4096][k % 4096 / 8] >> ((k % 8) as u8)) & 1 == 1,
{
    let b = d[start + k / 4096];
    let q = 8 * ((k % 4096) / 64);
    let w = word64(d, start + k / 4096, (k % 4096) / 64);
    let j = k % 64 / 8;
    let x = b[q + j];
    let s = (k % 8) as u8;
    let i = (k % 64) as u64;
    assert(k % 4096 / 8 == q + j);
    lemma_byte_of(b[q], b[q + 1], b[q + 2], b[q + 3], b[q + 4], b[q + 5], b[q + 6], b[q + 7]);
    assert(w == le64(b, q));
    let v = (j * 8) as u64;
    assert((w >> v) & 0xff == x as u64);
    assert((w >> i) & 1 == 1 <==> (x >> s) & 1 == 1) by (bit_vector)
        requires
            i == v + s,
            s < 8u8,
            v < 64u64,
            (w >> v) & 0xff == x as u64,
    ;
}

/// The bytes of a number, one after the other.
#[verifier::spinoff_prover]
#[verifier::rlimit(60)]
proof fn lemma_byte_of(b0: u8, b1: u8, b2: u8, b3: u8, b4: u8, b5: u8, b6: u8, b7: u8)
    ensures
        ({
            let w = (b0 + 256 * b1 + 65536 * b2 + 16777216 * b3 + 0x1_0000_0000 * (b4 + 256 * b5
                + 65536 * b6 + 16777216 * b7)) as u64;
            &&& (w >> 0) & 0xff == b0 as u64
            &&& (w >> 8) & 0xff == b1 as u64
            &&& (w >> 16) & 0xff == b2 as u64
            &&& (w >> 24) & 0xff == b3 as u64
            &&& (w >> 32) & 0xff == b4 as u64
            &&& (w >> 40) & 0xff == b5 as u64
            &&& (w >> 48) & 0xff == b6 as u64
            &&& (w >> 56) & 0xff == b7 as u64
        }),
{
    assert({
        let w = (b0 + 256 * b1 + 65536 * b2 + 16777216 * b3 + 0x1_0000_0000 * (b4 + 256 * b5
            + 65536 * b6 + 16777216 * b7)) as u64;
        &&& (w >> 0) & 0xff == b0 as u64
        &&& (w >> 8) & 0xff == b1 as u64
        &&& (w >> 16) & 0xff == b2 as u64
        &&& (w >> 24) & 0xff == b3 as u64
        &&& (w >> 32) & 0xff == b4 as u64
        &&& (w >> 40) & 0xff == b5 as u64
        &&& (w >> 48) & 0xff == b6 as u64
        &&& (w >> 56) & 0xff == b7 as u64
    }) by (bit_vector);
}

/// A read gets the bytes of the file from its offset on, as many as the buffer and the file
/// have, and leaves the rest of the buffer as it was.
pub proof fn law_read(f: Seq<u8>, off: int, before: Seq<u8>, after: Seq<u8>, r: int, i: int)
    requires
        0 <= off,
        was_read(f, off, before, after, r),
        0 <= i < before.len(),
    ensures
        after.len() == before.len(),
        0 <= r <= before.len(),
        r == before.len() || off + r >= f.len(),
        i < r ==> off + i < f.len() && after[i] == f[off + i],
        i >= r ==> after[i] == before[i],
{
}

} // verus!
