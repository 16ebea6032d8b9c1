//! Files and directories.
use super::bitmap::lemma_with_bit;
use super::block_cache::zero_block;
use super::block_dev::BlockDevice;
use super::bytes::{splice, Record};
use super::disk::{
    data_area, data_bitmap, disk_ok, extended, file, free_data, freed, geometry_ok, in_data_area,
    inode, inode_exists, inode_offset, inode_wf, lemma_areas, lemma_clear_exists, lemma_disjoint,
    lemma_disk_ok, lemma_extended, lemma_free_block, lemma_grow_file, lemma_new_inode,
    lemma_others_same_trans, lemma_replace_inode, lemma_same_super, lemma_take_block,
    lemma_write_file, live, others_same, owned, put_inode, same_file, super_block, taken, unowned,
    zero_tail,
};
use super::efs::EasyFileSystem;
use super::layout::{
    cleared, empty_inode, growth, lemma_padded_name, padded_name, transfer_len, DirEntry, DiskInode,
    DiskInodeType, EntryModel, DIRENT_SZ, NAME_LENGTH_LIMIT,
};
use super::model::{data_blocks_of, InodeModel, INDIRECT2_BOUND};
use super::tree::{
    dir_ok, entries, entry_ok, file_ok, find_from, has_name, lemma_dir_kept, lemma_entries_push,
    lemma_entries_take, lemma_entries_update, lemma_entry_count, lemma_find_from, lemma_links_bound,
    lemma_links_positive, lemma_same_entries, lemma_tree_create, lemma_tree_file, lemma_tree_linked,
    lemma_tree_unlinked, name_of, tree_ok,
};
use vstd::prelude::*;
use vstd::utf8::{decode_utf8, encode_utf8};

verus! {

/// A file or a directory: where its disk inode lies.
pub struct Inode {
    block_id: usize,
    block_offset: usize,
    inode_id: u32,
}

/// A file can grow to `n` bytes: it will not be too large, and there are enough free
/// blocks.
pub open spec fn room(d: Seq<Seq<u8>>, id: int, n: int) -> bool {
    &&& data_blocks_of(n) <= INDIRECT2_BOUND
    &&& growth(inode(d, id), n) <= free_data(d)
}

/// The larger of two sizes.
pub open spec fn larger(a: int, b: int) -> int {
    if a < b {
        b
    } else {
        a
    }
}

/// `r` bytes of a file were copied from byte `off` on to the front of a buffer.
pub open spec fn was_read(
    f: Seq<u8>,
    off: int,
    before: Seq<u8>,
    after: Seq<u8>,
    r: int,
) -> bool {
    &&& r == transfer_len(off, before.len() as int, f.len() as int)
    &&& after == Seq::new(
        before.len(),
        |i: int|
            if i < r {
                f[off + i]
            } else {
                before[i]
            },
    )
}

/// Data was written at byte `off` of a file.
pub open spec fn was_written(
    d: Seq<Seq<u8>>,
    d2: Seq<Seq<u8>>,
    id: int,
    off: int,
    data: Seq<u8>,
) -> bool {
    file(d2, id) == splice(
        extended(d, id, larger(file(d, id).len() as int, off + data.len())),
        off,
        data,
    )
}

/// The inode `id`, the first that was free, became an empty file, and an entry with its name
/// was appended to the directory `dir`.
pub open spec fn created(
    d: Seq<Seq<u8>>,
    d2: Seq<Seq<u8>>,
    dir: int,
    id: int,
    name: Seq<u8>,
) -> bool {
    &&& inode_exists(d, id) && !live(d, id)
    &&& forall|j: int| 0 <= j < id ==> #[trigger] live(d, j)
    &&& inode(d2, id) == empty_inode(DiskInodeType::File)
    &&& file(d2, id) == Seq::<u8>::empty()
    &&& entries(d2, dir) == entries(d, dir).push(
        EntryModel { name: padded_name(name), inode_id: id as u32 },
    )
    &&& forall|j: int| j != id ==> (#[trigger] live(d2, j) <==> live(d, j))
    &&& forall|j: int| j != dir && live(d, j) ==> #[trigger] same_file(d, d2, j)
    &&& free_data(d2) == free_data(d) - growth(inode(d, dir), file(d, dir).len() + DIRENT_SZ)
}

/// The file that is found in the directory `dir` under the name `old_name` got another name:
/// an entry with it was appended, and the link was counted.
pub open spec fn linked(
    d: Seq<Seq<u8>>,
    d2: Seq<Seq<u8>>,
    dir: int,
    old_name: Seq<u8>,
    new_name: Seq<u8>,
) -> bool {
    let es = entries(d, dir);
    let inode_id = es[find_from(es, old_name, 0)].inode_id;
    let id = inode_id as int;
    &&& entries(d2, dir) == es.push(EntryModel { name: padded_name(new_name), inode_id })
    &&& inode(d, id).nlink < u32::MAX
    &&& inode(d2, id) == (InodeModel { nlink: (inode(d, id).nlink + 1) as u32, ..inode(d, id) })
    &&& file(d2, id) == file(d, id)
    &&& forall|j: int| #[trigger] live(d2, j) <==> live(d, j)
    &&& forall|j: int| j != dir && j != id && live(d, j) ==> #[trigger] same_file(d, d2, j)
    &&& free_data(d2) == free_data(d) - growth(inode(d, dir), file(d, dir).len() + DIRENT_SZ)
}

/// The first entry of the directory `dir` with the name was removed, and with it a link of
/// its file, which is empty if it was the last.
pub open spec fn unlinked(d: Seq<Seq<u8>>, d2: Seq<Seq<u8>>, dir: int, name: Seq<u8>) -> bool {
    let es = entries(d, dir);
    let k = find_from(es, name, 0);
    let id = es[k].inode_id as int;
    let last = inode(d, id).nlink == 1;
    &&& entries(d2, dir) == es.remove(k)
    &&& inode(d, id).nlink >= 1
    &&& inode(d2, id) == (InodeModel {
        nlink: (inode(d, id).nlink - 1) as u32,
        ..if last {
            cleared(inode(d, id))
        } else {
            inode(d, id)
        }
    })
    &&& file(d2, id) == if last {
        Seq::<u8>::empty()
    } else {
        file(d, id)
    }
    &&& free_data(d2) == free_data(d) + if last {
        owned(d, id).len()
    } else {
        0
    }
    &&& forall|j: int| #[trigger] live(d2, j) <==> live(d, j)
    &&& forall|j: int| j != dir && j != id && live(d, j) ==> #[trigger] same_file(d, d2, j)
}

/// Allocate a block of the data area.
fn take_block<D: BlockDevice>(fs: &mut EasyFileSystem<D>) -> (b: u32)
    requires
        old(fs).wf(),
        free_data(old(fs)@) > 0,
    ensures
        final(fs).wf(),
        final(fs).same_layout(old(fs)),
        others_same(old(fs)@, final(fs)@, -1),
        free_data(final(fs)@) == free_data(old(fs)@) - 1,
        in_data_area(old(fs)@, b as int),
        !taken(old(fs)@, b as int),
        taken(final(fs)@, b as int),
        unowned(final(fs)@, b as int),
        final(fs)@[b as int] == zero_block(),
        forall|c: int|
            #[trigger] in_data_area(old(fs)@, c) ==> {
                &&& c != b ==> taken(final(fs)@, c) == taken(old(fs)@, c)
                &&& final(fs)@[c] == old(fs)@[c]
            },
        forall|c: int| unowned(old(fs)@, c) ==> #[trigger] unowned(final(fs)@, c),
{
    let ghost d = fs@;
    let ghost s = super_block(d);
    let ghost k0 = lemma_clear_exists(d, data_bitmap(s), s.data_area_blocks as int);
    proof {
        lemma_disk_ok(d, 0);
        lemma_areas(d, 0, data_area(s) + k0);
        assert(!fs.data_bitmap.is_set(d, k0));
    }
    let ghost bitmap = fs.data_bitmap;
    let b: u32 = fs.alloc_data();
    proof {
        let k = b - data_area(s);
        if k > k0 {
            assert(bitmap.is_set(d, k0));
        }
        assert(in_data_area(d, b as int));
        assert(!taken(d, b as int));
        lemma_take_block(d, b as int);
        assert(d[b as int] == zero_block()) by {
            reveal(disk_ok);
        }
        assert forall|c: int| unowned(d, c) implies #[trigger] unowned(fs@, c) by {
            assert forall|j: int, p: int|
                live(fs@, j) && 0 <= p < owned(fs@, j).len() implies #[trigger] owned(
                fs@,
                j,
            )[p] as int != c by {
                assert(same_file(d, fs@, j));
                assert(owned(d, j)[p] as int != c);
            }
        }
    }
    b
}

/// Allocate an inode, and make it an empty file.
fn make_file<D: BlockDevice>(fs: &mut EasyFileSystem<D>) -> (r: Inode)
    requires
        old(fs).wf(),
        exists|k: int| #[trigger] inode_exists(old(fs)@, k) && !live(old(fs)@, k),
    ensures
        final(fs).wf(),
        final(fs).same_layout(old(fs)),
        r.on(final(fs)),
        inode_exists(old(fs)@, r.id()),
        !live(old(fs)@, r.id()),
        forall|j: int| 0 <= j < r.id() ==> #[trigger] live(old(fs)@, j),
        others_same(old(fs)@, final(fs)@, r.id()),
        inode(final(fs)@, r.id()) == empty_inode(DiskInodeType::File),
        file(final(fs)@, r.id()) == Seq::<u8>::empty(),
        zero_tail(final(fs)@, r.id()),
        free_data(final(fs)@) == free_data(old(fs)@),
{
    let ghost d = fs@;
    let ghost bitmap = fs.inode_bitmap;
    let ghost k = choose|k: int| #[trigger] inode_exists(d, k) && !live(d, k);
    proof {
        lemma_disk_ok(d, 0);
        lemma_areas(d, k, 0);
        assert(!fs.inode_bitmap.is_set(d, k));
    }
    let new_inode_id: u32 = fs.alloc_inode();
    let ghost nid = new_inode_id as int;
    let ghost d0 = fs@;
    proof {
        if nid > k {
            assert(bitmap.is_set(d, k));
        }
        assert(inode_exists(d, nid));
        assert(!live(d, nid));
        assert forall|j: int| 0 <= j < nid implies #[trigger] live(d, j) by {
            assert(bitmap.is_set(d, j));
        }
        lemma_areas(d, nid, 0);
        lemma_with_bit(d, 1, nid, true);
        lemma_same_super(d, d0);
    }
    // initialize inode
    let (block_id, block_offset) = fs.get_disk_inode_pos(new_inode_id);
    let new_inode: Inode = Inode::new(block_id, block_offset, new_inode_id);
    let mut disk_inode: DiskInode = fs.block_device.read::<DiskInode>(
        block_id as usize,
        block_offset,
    );
    disk_inode.initialize(DiskInodeType::File);
    new_inode.modify_disk_inode(&disk_inode, fs);
    proof {
        lemma_new_inode(d, nid, DiskInodeType::File);
    }
    new_inode
}

impl Inode {
    /// The number of the inode.
    pub closed spec fn id(&self) -> int {
        self.inode_id as int
    }

    /// The position is that of the inode, in an inode area that starts at the given block.
    pub closed spec fn located(&self, inode_area_start: int) -> bool {
        &&& self.block_id == inode_area_start + self.inode_id / 3
        &&& self.block_offset == inode_offset(self.inode_id as int)
    }

    /// The inode is an allocated one of the file system.
    pub open spec fn on<D: BlockDevice>(&self, fs: &EasyFileSystem<D>) -> bool {
        self.located(fs.inode_area_start_block as int) && live(fs@, self.id())
    }

    /// Create an inode from the position of its disk inode and its number.
    pub fn new(block_id: u32, block_offset: usize, inode_id: u32) -> (r: Self)
        ensures
            r.id() == inode_id,
            forall|start: int|
                #[trigger] r.located(start) <==> block_id == start + inode_id / 3 && block_offset
                    == inode_offset(inode_id as int),
    {
        Inode { block_id: block_id as usize, block_offset, inode_id }
    }

    /// Read the disk inode.
    fn read_disk_inode<D: BlockDevice>(&self, fs: &mut EasyFileSystem<D>) -> (r: DiskInode)
        requires
            old(fs).wf(),
            self.on(old(fs)),
        ensures
            final(fs).wf(),
            final(fs)@ == old(fs)@,
            final(fs).same_layout(old(fs)),
            r@ == inode(old(fs)@, self.id()),
            file(old(fs)@, self.id()).len() == r@.size,
    {
        proof {
            lemma_disk_ok(fs@, self.id());
            lemma_areas(fs@, self.id(), 0);
            reveal(inode);
            reveal(file);
        }
        fs.block_device.read::<DiskInode>(self.block_id, self.block_offset)
    }

    /// Write the disk inode.
    fn modify_disk_inode<D: BlockDevice>(&self, disk_inode: &DiskInode, fs: &mut EasyFileSystem<D>)
        requires
            old(fs).block_device.inv(),
            geometry_ok(old(fs)@),
            old(fs).matches(super_block(old(fs)@)),
            inode_exists(old(fs)@, self.id()),
            self.located(old(fs).inode_area_start_block as int),
        ensures
            final(fs).block_device.inv(),
            final(fs).same_layout(old(fs)),
            final(fs)@ == put_inode(old(fs)@, self.id(), disk_inode@),
            DiskInode::encode(disk_inode@).len() == 132,
            DiskInode::decode(DiskInode::encode(disk_inode@)) == disk_inode@,
    {
        proof {
            lemma_areas(fs@, self.id(), 0);
        }
        fs.block_device.write::<DiskInode>(self.block_id, self.block_offset, disk_inode);
    }

    /// Increase the size of a disk inode. New blocks of data hold zero bytes.
    fn increase_size<D: BlockDevice>(
        &self,
        new_size: u32,
        disk_inode: &mut DiskInode,
        fs: &mut EasyFileSystem<D>,
    )
        requires
            old(fs).wf(),
            self.on(old(fs)),
            old(disk_inode)@ == inode(old(fs)@, self.id()),
            new_size < old(disk_inode)@.size || room(old(fs)@, self.id(), new_size as int),
        ensures
            final(fs).wf(),
            final(fs).same_layout(old(fs)),
            others_same(old(fs)@, final(fs)@, self.id()),
            live(final(fs)@, self.id()),
            final(disk_inode)@ == inode(final(fs)@, self.id()),
            final(disk_inode)@.kind == old(disk_inode)@.kind,
            final(disk_inode)@.nlink == old(disk_inode)@.nlink,
            final(disk_inode)@.size == larger(old(disk_inode)@.size as int, new_size as int),
            file(final(fs)@, self.id()) == extended(
                old(fs)@,
                self.id(),
                larger(old(disk_inode)@.size as int, new_size as int),
            ),
            zero_tail(old(fs)@, self.id()) ==> zero_tail(final(fs)@, self.id()),
            free_data(final(fs)@) == free_data(old(fs)@) - growth(
                old(disk_inode)@,
                larger(old(disk_inode)@.size as int, new_size as int),
            ),
    {
        let ghost d0 = fs@;
        let ghost fs0 = *fs;
        let ghost id = self.id();
        let ghost m = disk_inode@;
        proof {
            lemma_disk_ok(d0, id);
            assert(m.wf(d0) && file(d0, id).len() == m.size) by {
                reveal(inode_wf);
                reveal(file);
            }
            lemma_extended(d0, id, m.size as int);
            assert(extended(d0, id, m.size as int) =~= file(d0, id)) by {
                assert(extended(d0, id, m.size as int).take(m.size as int) =~= extended(
                    d0,
                    id,
                    m.size as int,
                ));
            }
        }
        if new_size < disk_inode.size {
            return;
        }
        let blocks_needed: u32 = disk_inode.blocks_num_needed(new_size);
        let mut v: Vec<u32> = Vec::new();
        let mut i: u32 = 0;
        while i < blocks_needed
            invariant
                i <= blocks_needed,
                blocks_needed <= free_data(d0),
                fs.wf(),
                fs.same_layout(&fs0),
                disk_ok(d0),
                others_same(d0, fs@, -1),
                free_data(fs@) == free_data(d0) - i,
                v@.len() == i,
                v@.no_duplicates(),
                forall|k: int|
                    0 <= k < v@.len() ==> {
                        let b = #[trigger] v@[k] as int;
                        in_data_area(fs@, b) && taken(fs@, b) && unowned(fs@, b) && fs@[b]
                            == zero_block()
                    },
            decreases blocks_needed - i,
        {
            let ghost d = fs@;
            let b: u32 = take_block(fs);
            proof {
                lemma_others_same_trans(d0, d, fs@, -1, -1);
                assert forall|x: int| 0 <= x < v@.len() implies {
                    let c = #[trigger] v@[x] as int;
                    in_data_area(fs@, c) && taken(fs@, c) && unowned(fs@, c) && fs@[c]
                        == zero_block() && c != b
                } by {
                    assert(in_data_area(d, v@[x] as int));
                }
            }
            v.push(b);
            i += 1;
        }
        let ghost d1 = fs@;
        proof {
            assert(same_file(d0, d1, id));
            lemma_disk_ok(d1, id);
            assert(disk_inode@.wf(d1)) by {
                reveal(inode_wf);
            }
            assert(disk_inode@.owned(d1) == owned(d1, id)) by {
                reveal(owned);
            }
            let o = owned(d1, id);
            assert(v@.take(growth(m, new_size as int)) =~= v@);
            let all = o + v@;
            assert forall|x: int, y: int| 0 <= x < all.len() && 0 <= y < all.len() && x != y implies
                all[x] != all[y] by {
                if x < o.len() && y >= o.len() {
                    assert(unowned(d1, v@[y - o.len()] as int));
                    assert(owned(d1, id)[x] as int != v@[y - o.len()]);
                } else if x >= o.len() && y < o.len() {
                    assert(unowned(d1, v@[x - o.len()] as int));
                    assert(owned(d1, id)[y] as int != v@[x - o.len()]);
                }
            }
            assert forall|x: int| 0 <= x < growth(m, new_size as int) implies (
            #[trigger] v@[x] as int) < d1.len() by {
                lemma_areas(d1, 0, v@[x] as int);
            }
        }
        disk_inode.increase_size(new_size, v, &mut fs.block_device);
        let ghost d2 = fs@;
        proof {
            let s = super_block(d1);
            lemma_areas(d1, id, 0);
            let o = disk_inode@.owned(d2);
            assert forall|b: int| 0 <= b < data_area(s) implies #[trigger] d2[b] == d1[b] by {
                assert forall|p: int| 0 <= p < o.len() implies #[trigger] o[p] as int != b by {
                    if p < owned(d1, id).len() {
                        assert(o[p] == owned(d1, id)[p]);
                    } else {
                        assert(o[p] == v@[p - owned(d1, id).len()]);
                    }
                }
            }
            lemma_same_super(d1, d2);
            assert(geometry_ok(d2));
        }
        self.modify_disk_inode(disk_inode, fs);
        proof {
            lemma_grow_file(d1, d2, id, disk_inode@, v@);
            lemma_others_same_trans(d0, d1, fs@, -1, id);
            assert(extended(d1, id, new_size as int) == extended(d0, id, new_size as int));
        }
    }

    /// Read data from current inode.
    pub fn read_at<D: BlockDevice>(
        &self,
        offset: usize,
        buf: &mut [u8],
        fs: &mut EasyFileSystem<D>,
    ) -> (r: usize)
        requires
            old(fs).wf(),
            self.on(old(fs)),
            offset + old(buf)@.len() <= usize::MAX,
        ensures
            final(fs).wf(),
            final(fs)@ == old(fs)@,
            final(fs).same_layout(old(fs)),
            was_read(
                file(old(fs)@, self.id()),
                offset as int,
                old(buf)@,
                final(buf)@,
                r as int,
            ),
    {
        let disk_inode: DiskInode = self.read_disk_inode(fs);
        proof {
            lemma_disk_ok(fs@, self.id());
            reveal(inode_wf);
            reveal(file);
        }
        disk_inode.read_at(offset, buf, &mut fs.block_device)
    }

    /// Write data to current inode. The file grows if need be, and a gap before the
    /// data is filled.
    pub fn write_at<D: BlockDevice>(
        &self,
        offset: usize,
        buf: &[u8],
        fs: &mut EasyFileSystem<D>,
    ) -> (r: usize)
        requires
            old(fs).wf(),
            self.on(old(fs)),
            offset + buf@.len() <= u32::MAX,
            offset + buf@.len() < file(old(fs)@, self.id()).len() || room(
                old(fs)@,
                self.id(),
                offset + buf@.len(),
            ),
        ensures
            final(fs).wf(),
            final(fs).same_layout(old(fs)),
            final(fs).block_device.synced(),
            r == buf@.len(),
            others_same(old(fs)@, final(fs)@, self.id()),
            live(final(fs)@, self.id()),
            inode(final(fs)@, self.id()).kind == inode(old(fs)@, self.id()).kind,
            inode(final(fs)@, self.id()).nlink == inode(old(fs)@, self.id()).nlink,
            was_written(old(fs)@, final(fs)@, self.id(), offset as int, buf@),
            zero_tail(old(fs)@, self.id()) ==> zero_tail(final(fs)@, self.id()),
            free_data(final(fs)@) == free_data(old(fs)@) - growth(
                inode(old(fs)@, self.id()),
                larger(file(old(fs)@, self.id()).len() as int, offset + buf@.len()),
            ),
            tree_ok(old(fs)@) && self.id() != 0 ==> tree_ok(final(fs)@),
    {
        let ghost d = fs@;
        let ghost id = self.id();
        let mut disk_inode: DiskInode = self.read_disk_inode(fs);
        self.increase_size((offset + buf.len()) as u32, &mut disk_inode, fs);
        let ghost d1 = fs@;
        proof {
            lemma_extended(d, id, larger(file(d, id).len() as int, offset + buf@.len()));
        }
        let size: usize = write_file(&mut disk_inode, offset, buf, fs, Ghost(id));
        proof {
            lemma_others_same_trans(d, d1, fs@, id, id);
            if tree_ok(d) && id != 0 {
                assert(file_ok(d, id));
                lemma_tree_file(d, fs@, id);
            }
        }
        fs.block_device.block_cache_sync_all();
        size
    }

    /// Clear the data in current inode.
    pub fn clear<D: BlockDevice>(&self, fs: &mut EasyFileSystem<D>)
        requires
            old(fs).wf(),
            self.on(old(fs)),
        ensures
            final(fs).wf(),
            final(fs).same_layout(old(fs)),
            final(fs).block_device.synced(),
            others_same(old(fs)@, final(fs)@, self.id()),
            live(final(fs)@, self.id()),
            inode(final(fs)@, self.id()) == cleared(inode(old(fs)@, self.id())),
            file(final(fs)@, self.id()) == Seq::<u8>::empty(),
            zero_tail(final(fs)@, self.id()),
            free_data(final(fs)@) == free_data(old(fs)@) + owned(old(fs)@, self.id()).len(),
            tree_ok(old(fs)@) && self.id() != 0 ==> tree_ok(final(fs)@),
    {
        let ghost d = fs@;
        let ghost fs0 = *fs;
        let ghost id = self.id();
        let mut disk_inode: DiskInode = self.read_disk_inode(fs);
        proof {
            lemma_disk_ok(d, id);
            reveal(inode_wf);
            reveal(owned);
        }
        let data_blocks_dealloc: Vec<u32> = disk_inode.clear_size(&mut fs.block_device);
        let ghost v = data_blocks_dealloc@;
        proof {
            lemma_disk_ok(d, id);
        }
        self.modify_disk_inode(&disk_inode, fs);
        let ghost d1 = fs@;
        proof {
            lemma_replace_inode(d, id, disk_inode@);
            assert(file(d1, id) =~= Seq::<u8>::empty());
            assert forall|k: int| 0 <= k < v.len() implies {
                let b = #[trigger] v[k] as int;
                in_data_area(d1, b) && taken(d1, b) && unowned(d1, b)
            } by {
                let b = v[k] as int;
                assert(in_data_area(d, owned(d, id)[k] as int));
                assert forall|j: int, p: int|
                    live(d1, j) && 0 <= p < owned(d1, j).len() implies #[trigger] owned(
                    d1,
                    j,
                )[p] as int != b by {
                    if j != id {
                        assert(live(d, j));
                        assert(same_file(d, d1, j));
                        lemma_disjoint(d, id, j);
                        assert(owned(d, id)[k] != owned(d, j)[p]);
                    }
                }
            }
        }
        let mut i: usize = 0;
        while i < data_blocks_dealloc.len()
            invariant
                i <= v.len(),
                v == data_blocks_dealloc@,
                v.no_duplicates(),
                fs.wf(),
                fs.same_layout(&fs0),
                disk_ok(d1),
                others_same(d1, fs@, -1),
                free_data(fs@) == free_data(d1) + i,
                forall|k: int|
                    i <= k < v.len() ==> {
                        let b = #[trigger] v[k] as int;
                        in_data_area(fs@, b) && taken(fs@, b) && unowned(fs@, b)
                    },
            decreases v.len() - i,
        {
            let ghost cur = fs@;
            let ghost b = v[i as int] as int;
            proof {
                assert(in_data_area(cur, b));
                lemma_disk_ok(cur, 0);
                lemma_areas(cur, 0, b);
                lemma_free_block(cur, b);
            }
            fs.dealloc_data(data_blocks_dealloc[i]);
            proof {
                assert(fs@ == freed(cur, b));
                lemma_others_same_trans(d1, cur, fs@, -1, -1);
                assert forall|k: int| i + 1 <= k < v.len() implies {
                    let c = #[trigger] v[k] as int;
                    in_data_area(fs@, c) && taken(fs@, c) && unowned(fs@, c)
                } by {
                    assert(in_data_area(cur, v[k] as int));
                    assert(v[k] != v[i as int]);
                }
            }
            i += 1;
        }
        proof {
            lemma_others_same_trans(d, d1, fs@, id, -1);
            assert(same_file(d1, fs@, id));
            if tree_ok(d) && id != 0 {
                lemma_tree_file(d, fs@, id);
            }
        }
        fs.block_device.block_cache_sync_all();
    }
}

/// Whether two strings are the same.
pub(crate) fn same_str(a: &str, b: &str) -> (r: bool)
    ensures
        r == (encode_utf8(a@) == encode_utf8(b@)),
{
    let x: &[u8] = a.as_bytes();
    let y: &[u8] = b.as_bytes();
    if x.len() != y.len() {
        return false;
    }
    let mut i: usize = 0;
    while i < x.len()
        invariant
            i <= x@.len(),
            x@.len() == y@.len(),
            x@ == encode_utf8(a@),
            y@ == encode_utf8(b@),
            forall|k: int| 0 <= k < i ==> x@[k] == y@[k],
        decreases x@.len() - i,
    {
        if x[i] != y[i] {
            return false;
        }
        i += 1;
    }
    assert(x@ =~= y@);
    true
}

/// Read the `i`-th entry of a directory.
fn read_dirent<D: BlockDevice>(
    disk_inode: &DiskInode,
    i: usize,
    fs: &mut EasyFileSystem<D>,
    Ghost(id): Ghost<int>,
) -> (r: DirEntry)
    requires
        old(fs).wf(),
        live(old(fs)@, id),
        disk_inode@ == inode(old(fs)@, id),
        i < entries(old(fs)@, id).len(),
    ensures
        final(fs).wf(),
        final(fs)@ == old(fs)@,
        final(fs).same_layout(old(fs)),
        r@ == entries(old(fs)@, id)[i as int],
{
    let ghost d = fs@;
    let mut bytes: [u8; 32] = [0u8; 32];
    proof {
        lemma_disk_ok(d, id);
        reveal(inode_wf);
        reveal(entries);
        reveal(file);
    }
    disk_inode.read_at(DIRENT_SZ * i, &mut bytes, &mut fs.block_device);
    proof {
        let f = file(d, id);
        assert(f == disk_inode@.content(d));
        assert(bytes@ =~= f.subrange(32 * i, 32 * i + 32));
    }
    DirEntry::from_bytes(&bytes)
}

/// Write to the blocks that a file has.
fn write_file<D: BlockDevice>(
    disk_inode: &mut DiskInode,
    offset: usize,
    buf: &[u8],
    fs: &mut EasyFileSystem<D>,
    Ghost(id): Ghost<int>,
) -> (r: usize)
    requires
        old(fs).wf(),
        live(old(fs)@, id),
        old(disk_inode)@ == inode(old(fs)@, id),
        offset + buf@.len() <= file(old(fs)@, id).len(),
    ensures
        final(fs).wf(),
        final(fs).same_layout(old(fs)),
        *final(disk_inode) == *old(disk_inode),
        r == buf@.len(),
        others_same(old(fs)@, final(fs)@, id),
        live(final(fs)@, id),
        inode(final(fs)@, id) == inode(old(fs)@, id),
        file(final(fs)@, id) == splice(file(old(fs)@, id), offset as int, buf@),
        zero_tail(old(fs)@, id) ==> zero_tail(final(fs)@, id),
        free_data(final(fs)@) == free_data(old(fs)@),
{
    let ghost d = fs@;
    proof {
        lemma_disk_ok(d, id);
        reveal(inode_wf);
        reveal(file);
    }
    let r: usize = disk_inode.write_at(offset, buf, &mut fs.block_device);
    proof {
        assert(buf@.take(buf@.len() as int) =~= buf@);
        lemma_write_file(d, fs@, id, offset as int, buf@);
    }
    r
}

/// An entry made from a name that is not too long is a valid one.
proof fn lemma_new_entry(name: Seq<char>, inode_id: u32)
    requires
        encode_utf8(name).len() <= NAME_LENGTH_LIMIT,
    ensures
        entry_ok(EntryModel { name: padded_name(encode_utf8(name)), inode_id }),
{
    lemma_padded_name(encode_utf8(name));
    vstd::utf8::encode_utf8_valid_utf8(name);
}

impl Inode {
    /// Find inode under a disk inode by name: the one of the first entry with that name.
    fn find_inode_id<D: BlockDevice>(
        &self,
        name: &str,
        disk_inode: &DiskInode,
        fs: &mut EasyFileSystem<D>,
    ) -> (r: Option<u32>)
        requires
            old(fs).wf(),
            dir_ok(old(fs)@, self.id()),
            disk_inode@ == inode(old(fs)@, self.id()),
        ensures
            final(fs).wf(),
            final(fs)@ == old(fs)@,
            final(fs).same_layout(old(fs)),
            ({
                let es = entries(old(fs)@, self.id());
                let k = find_from(es, encode_utf8(name@), 0);
                r == if k < es.len() {
                    Some(es[k].inode_id)
                } else {
                    None
                }
            }),
    {
        match self.find_direntry_index(name, disk_inode, fs) {
            Some(i) => {
                let ghost id = self.id();
                let dirent: DirEntry = read_dirent(disk_inode, i, fs, Ghost(id));
                Some(dirent.inode_id())
            },
            None => None,
        }
    }

    /// Find the index of the first directory entry with the given name.
    pub fn find_direntry_index<D: BlockDevice>(
        &self,
        name: &str,
        disk_inode: &DiskInode,
        fs: &mut EasyFileSystem<D>,
    ) -> (r: Option<usize>)
        requires
            old(fs).wf(),
            dir_ok(old(fs)@, self.id()),
            disk_inode@ == inode(old(fs)@, self.id()),
        ensures
            final(fs).wf(),
            final(fs)@ == old(fs)@,
            final(fs).same_layout(old(fs)),
            ({
                let es = entries(old(fs)@, self.id());
                let k = find_from(es, encode_utf8(name@), 0);
                match r {
                    Some(i) => i == k && k < es.len(),
                    None => k >= es.len(),
                }
            }),
    {
        let ghost d = fs@;
        let ghost fs0 = *fs;
        let ghost id = self.id();
        let ghost es = entries(d, id);
        let ghost nm = encode_utf8(name@);
        let file_count: usize = disk_inode.size as usize / DIRENT_SZ;
        proof {
            lemma_entry_count(d, id);
        }
        let mut i: usize = 0;
        while i < file_count
            invariant
                i <= file_count,
                file_count == es.len(),
                fs.wf(),
                d == old(fs)@,
                fs0 == *old(fs),
                id == self.id(),
                fs@ == d,
                fs.same_layout(&fs0),
                dir_ok(d, id),
                disk_inode@ == inode(d, id),
                es == entries(d, id),
                nm == encode_utf8(name@),
                find_from(es, nm, 0) == find_from(es, nm, i as int),
            decreases file_count - i,
        {
            let dirent: DirEntry = read_dirent(disk_inode, i, fs, Ghost(id));
            assert(entry_ok(es[i as int]));
            if same_str(dirent.name(), name) {
                assert(encode_utf8(decode_utf8(name_of(es[i as int]))) == name_of(es[i as int]))
                    by {
                    vstd::utf8::decode_utf8_encode_utf8(name_of(es[i as int]));
                }
                return Some(i);
            }
            proof {
                vstd::utf8::decode_utf8_encode_utf8(name_of(es[i as int]));
            }
            i += 1;
        }
        None
    }

    /// Find inode under current inode by name.
    pub fn find<D: BlockDevice>(&self, name: &str, fs: &mut EasyFileSystem<D>) -> (r: Option<Inode>)
        requires
            old(fs).wf(),
            self.on(old(fs)),
            dir_ok(old(fs)@, self.id()),
        ensures
            final(fs).wf(),
            final(fs)@ == old(fs)@,
            final(fs).same_layout(old(fs)),
            ({
                let es = entries(old(fs)@, self.id());
                let k = find_from(es, encode_utf8(name@), 0);
                match r {
                    Some(i) => k < es.len() && i.id() == es[k].inode_id && i.on(old(fs)),
                    None => k >= es.len(),
                }
            }),
    {
        let disk_inode: DiskInode = self.read_disk_inode(fs);
        match self.find_inode_id(name, &disk_inode, fs) {
            Some(inode_id) => {
                proof {
                    let es = entries(fs@, self.id());
                    let k = find_from(es, encode_utf8(name@), 0);
                    lemma_find_from(es, encode_utf8(name@), 0);
                    assert(live(fs@, es[k].inode_id as int));
                    lemma_disk_ok(fs@, inode_id as int);
                    lemma_areas(fs@, inode_id as int, 0);
                }
                let (block_id, block_offset) = fs.get_disk_inode_pos(inode_id);
                Some(Inode::new(block_id, block_offset, inode_id))
            },
            None => None,
        }
    }

    /// List the names under current inode.
    pub fn ls<D: BlockDevice>(&self, fs: &mut EasyFileSystem<D>) -> (r: Vec<String>)
        requires
            old(fs).wf(),
            self.on(old(fs)),
            dir_ok(old(fs)@, self.id()),
        ensures
            final(fs).wf(),
            final(fs)@ == old(fs)@,
            final(fs).same_layout(old(fs)),
            r@.len() == entries(old(fs)@, self.id()).len(),
            forall|i: int|
                0 <= i < r@.len() ==> (#[trigger] r@[i])@ == decode_utf8(
                    name_of(entries(old(fs)@, self.id())[i]),
                ),
    {
        let ghost d = fs@;
        let ghost fs0 = *fs;
        let ghost id = self.id();
        let ghost es = entries(d, id);
        let disk_inode: DiskInode = self.read_disk_inode(fs);
        let file_count: usize = disk_inode.size as usize / DIRENT_SZ;
        proof {
            lemma_entry_count(d, id);
        }
        let mut v: Vec<String> = Vec::new();
        let mut i: usize = 0;
        while i < file_count
            invariant
                i <= file_count,
                file_count == es.len(),
                fs.wf(),
                d == old(fs)@,
                fs0 == *old(fs),
                id == self.id(),
                fs@ == d,
                fs.same_layout(&fs0),
                dir_ok(d, id),
                disk_inode@ == inode(d, id),
                es == entries(d, id),
                v@.len() == i,
                forall|k: int| 0 <= k < i ==> (#[trigger] v@[k])@ == decode_utf8(name_of(es[k])),
            decreases file_count - i,
        {
            let dirent: DirEntry = read_dirent(&disk_inode, i, fs, Ghost(id));
            assert(entry_ok(es[i as int]));
            v.push(dirent.name().to_owned());
            i += 1;
        }
        v
    }

    /// The number of the inode.
    pub fn inode_id(&self) -> (r: u32)
        ensures
            r == self.id(),
    {
        self.inode_id
    }

    /// Whether the inode is a directory.
    pub fn is_dir<D: BlockDevice>(&self, fs: &mut EasyFileSystem<D>) -> (r: bool)
        requires
            old(fs).wf(),
            self.on(old(fs)),
        ensures
            final(fs).wf(),
            final(fs)@ == old(fs)@,
            final(fs).same_layout(old(fs)),
            r == (inode(old(fs)@, self.id()).kind == DiskInodeType::Directory),
    {
        self.read_disk_inode(fs).is_dir()
    }

    /// Whether the inode is a file.
    pub fn is_file<D: BlockDevice>(&self, fs: &mut EasyFileSystem<D>) -> (r: bool)
        requires
            old(fs).wf(),
            self.on(old(fs)),
        ensures
            final(fs).wf(),
            final(fs)@ == old(fs)@,
            final(fs).same_layout(old(fs)),
            r == (inode(old(fs)@, self.id()).kind == DiskInodeType::File),
    {
        self.read_disk_inode(fs).is_file()
    }

    /// Set the number of links. Nothing is written back to the device yet.
    pub fn set_nlink<D: BlockDevice>(&self, nlink: u32, fs: &mut EasyFileSystem<D>)
        requires
            old(fs).wf(),
            self.on(old(fs)),
        ensures
            final(fs).wf(),
            final(fs).same_layout(old(fs)),
            others_same(old(fs)@, final(fs)@, self.id()),
            live(final(fs)@, self.id()),
            inode(final(fs)@, self.id()) == (InodeModel {
                nlink,
                ..inode(old(fs)@, self.id())
            }),
            file(final(fs)@, self.id()) == file(old(fs)@, self.id()),
            owned(final(fs)@, self.id()) == owned(old(fs)@, self.id()),
            zero_tail(old(fs)@, self.id()) ==> zero_tail(final(fs)@, self.id()),
            free_data(final(fs)@) == free_data(old(fs)@),
    {
        let ghost d = fs@;
        let mut disk_inode: DiskInode = self.read_disk_inode(fs);
        disk_inode.set_nlink(nlink);
        proof {
            lemma_disk_ok(d, self.id());
        }
        self.modify_disk_inode(&disk_inode, fs);
        proof {
            lemma_replace_inode(d, self.id(), disk_inode@);
            let f = file(d, self.id());
            assert(f.take(f.len() as int) =~= f);
            assert(owned(fs@, self.id()).len() == owned(d, self.id()).len()) by {
                reveal(owned);
            }
            assert(owned(fs@, self.id()) =~= owned(d, self.id()));
        }
    }

    /// Get the number of links.
    pub fn get_nlink<D: BlockDevice>(&self, fs: &mut EasyFileSystem<D>) -> (r: u32)
        requires
            old(fs).wf(),
            self.on(old(fs)),
        ensures
            final(fs).wf(),
            final(fs)@ == old(fs)@,
            final(fs).same_layout(old(fs)),
            r == inode(old(fs)@, self.id()).nlink,
    {
        self.read_disk_inode(fs).nlink()
    }

    /// Append an entry to a directory.
    fn append_dirent<D: BlockDevice>(
        &self,
        name: &str,
        inode_id: u32,
        fs: &mut EasyFileSystem<D>,
    )
        requires
            old(fs).wf(),
            self.on(old(fs)),
            inode(old(fs)@, self.id()).size == file(old(fs)@, self.id()).len(),
            file(old(fs)@, self.id()).len() % 32 == 0,
            room(old(fs)@, self.id(), file(old(fs)@, self.id()).len() + DIRENT_SZ),
            encode_utf8(name@).len() <= NAME_LENGTH_LIMIT,
        ensures
            final(fs).wf(),
            final(fs).same_layout(old(fs)),
            others_same(old(fs)@, final(fs)@, self.id()),
            live(final(fs)@, self.id()),
            inode(final(fs)@, self.id()).kind == inode(old(fs)@, self.id()).kind,
            inode(final(fs)@, self.id()).nlink == inode(old(fs)@, self.id()).nlink,
            inode(final(fs)@, self.id()).size == file(final(fs)@, self.id()).len(),
            file(final(fs)@, self.id()).len() == file(old(fs)@, self.id()).len() + DIRENT_SZ,
            entries(final(fs)@, self.id()) == entries(old(fs)@, self.id()).push(
                EntryModel { name: padded_name(encode_utf8(name@)), inode_id },
            ),
            free_data(final(fs)@) == free_data(old(fs)@) - growth(
                inode(old(fs)@, self.id()),
                file(old(fs)@, self.id()).len() + DIRENT_SZ,
            ),
    {
        let ghost d = fs@;
        let ghost id = self.id();
        let ghost f = file(d, id);
        let mut disk_inode: DiskInode = self.read_disk_inode(fs);
        let file_count: usize = disk_inode.size as usize / DIRENT_SZ;
        let new_size: usize = (file_count + 1) * DIRENT_SZ;
        // increase size
        self.increase_size(new_size as u32, &mut disk_inode, fs);
        let ghost d1 = fs@;
        // write dirent
        let dirent: DirEntry = DirEntry::new(name, inode_id);
        let bytes: Vec<u8> = dirent.as_bytes();
        let ghost rec = bytes@;
        proof {
            lemma_extended(d, id, f.len() + DIRENT_SZ);
        }
        write_file(
            &mut disk_inode,
            file_count * DIRENT_SZ,
            bytes.as_slice(),
            fs,
            Ghost(id),
        );
        proof {
            lemma_others_same_trans(d, d1, fs@, id, id);
            let e = extended(d, id, f.len() + DIRENT_SZ);
            assert(splice(e, f.len() as int, rec) =~= f + rec) by {
                assert forall|k: int| 0 <= k < f.len() implies #[trigger] e[k] == f[k] by {
                    assert(e.take(f.len() as int)[k] == e[k]);
                }
            }
            lemma_entries_push(f, rec);
            reveal(entries);
        }
    }

    /// Create inode under current inode by name.
    #[verifier::spinoff_prover]
    #[verifier::rlimit(40)]
    pub fn create<D: BlockDevice>(
        &self,
        name: &str,
        fs: &mut EasyFileSystem<D>,
    ) -> (r: Option<Inode>)
        requires
            old(fs).wf(),
            self.on(old(fs)),
            tree_ok(old(fs)@),
            inode(old(fs)@, self.id()).kind == DiskInodeType::Directory,
            !has_name(entries(old(fs)@, self.id()), encode_utf8(name@)) ==> {
                &&& encode_utf8(name@).len() <= NAME_LENGTH_LIMIT
                &&& room(old(fs)@, self.id(), file(old(fs)@, self.id()).len() + DIRENT_SZ)
                &&& exists|k: int| #[trigger] inode_exists(old(fs)@, k) && !live(old(fs)@, k)
            },
        ensures
            final(fs).wf(),
            final(fs).same_layout(old(fs)),
            tree_ok(final(fs)@),
            r is None <==> has_name(entries(old(fs)@, self.id()), encode_utf8(name@)),
            r is None ==> final(fs)@ == old(fs)@,
            r is Some ==> {
                &&& r->0.on(final(fs))
                &&& created(old(fs)@, final(fs)@, self.id(), r->0.id(), encode_utf8(name@))
                &&& final(fs).block_device.synced()
            },
    {
        let ghost d = fs@;
        let ghost fs0 = *fs;
        proof {
            if self.id() != 0 {
                assert(file_ok(d, self.id()));
            }
        }
        let ghost es = entries(d, 0);
        // has the file been created?
        let root: DiskInode = self.read_disk_inode(fs);
        if self.find_inode_id(name, &root, fs).is_some() {
            return None;
        }
        // alloc a inode
        let new_inode: Inode = make_file(fs);
        let ghost nid = new_inode.id();
        let ghost d1 = fs@;
        proof {
            assert(same_file(d, d1, 0));
            lemma_same_entries(d, d1, 0);
        }
        // append file in the dirent
        self.append_dirent(name, new_inode.inode_id(), fs);
        proof {
            let e = EntryModel { name: padded_name(encode_utf8(name@)), inode_id: nid as u32 };
            lemma_new_entry(name@, nid as u32);
            lemma_tree_create(d, d1, fs@, nid, e);
        }
        fs.block_device.block_cache_sync_all();
        Some(new_inode)
    }

    /// Give the file with the name `old_name` another name: append an entry with the name
    /// `new_name`, and count the link.
    #[verifier::rlimit(40)]
    pub fn link<D: BlockDevice>(
        &self,
        old_name: &str,
        new_name: &str,
        fs: &mut EasyFileSystem<D>,
    ) -> (r: bool)
        requires
            old(fs).wf(),
            self.on(old(fs)),
            tree_ok(old(fs)@),
            inode(old(fs)@, self.id()).kind == DiskInodeType::Directory,
            has_name(entries(old(fs)@, self.id()), encode_utf8(old_name@)) ==> {
                &&& encode_utf8(new_name@).len() <= NAME_LENGTH_LIMIT
                &&& room(old(fs)@, self.id(), file(old(fs)@, self.id()).len() + DIRENT_SZ)
            },
        ensures
            final(fs).wf(),
            final(fs).same_layout(old(fs)),
            tree_ok(final(fs)@),
            r == has_name(entries(old(fs)@, self.id()), encode_utf8(old_name@)),
            !r ==> final(fs)@ == old(fs)@,
            r ==> linked(
                old(fs)@,
                final(fs)@,
                self.id(),
                encode_utf8(old_name@),
                encode_utf8(new_name@),
            ) && final(fs).block_device.synced(),
    {
        let ghost d = fs@;
        let ghost es = entries(d, 0);
        proof {
            if self.id() != 0 {
                assert(file_ok(d, self.id()));
            }
        }
        if let Some(inode_found) = self.find(old_name, fs) {
            let ghost id = inode_found.id();
            proof {
                let k = find_from(es, encode_utf8(old_name@), 0);
                lemma_find_from(es, encode_utf8(old_name@), 0);
                assert(live(d, es[k].inode_id as int));
                assert(file_ok(d, id));
                lemma_links_bound(es, id);
                lemma_entry_count(d, 0);
            }
            // append file in the dirent
            self.append_dirent(new_name, inode_found.inode_id(), fs);
            let ghost d1 = fs@;
            proof {
                assert(same_file(d, d1, id));
            }
            let current_nlink: u32 = inode_found.get_nlink(fs);
            inode_found.set_nlink(current_nlink + 1, fs);
            proof {
                let e = EntryModel {
                    name: padded_name(encode_utf8(new_name@)),
                    inode_id: id as u32,
                };
                lemma_new_entry(new_name@, id as u32);
                lemma_tree_linked(d, d1, fs@, id, e);
            }
            fs.block_device.block_cache_sync_all();
            true
        } else {
            false
        }
    }

    /// Move the entries behind an entry of a directory one place to the front, and take the
    /// last place off. The blocks of the directory stay allocated.
    #[verifier::rlimit(40)]
    fn remove_dirent<D: BlockDevice>(&self, delete_index: usize, fs: &mut EasyFileSystem<D>)
        requires
            old(fs).wf(),
            self.on(old(fs)),
            file(old(fs)@, self.id()).len() % 32 == 0,
            delete_index < entries(old(fs)@, self.id()).len(),
        ensures
            final(fs).wf(),
            final(fs).same_layout(old(fs)),
            others_same(old(fs)@, final(fs)@, self.id()),
            live(final(fs)@, self.id()),
            inode(final(fs)@, self.id()).kind == inode(old(fs)@, self.id()).kind,
            inode(final(fs)@, self.id()).nlink == inode(old(fs)@, self.id()).nlink,
            inode(final(fs)@, self.id()).size == file(final(fs)@, self.id()).len(),
            file(final(fs)@, self.id()).len() % 32 == 0,
            entries(final(fs)@, self.id()) == entries(old(fs)@, self.id()).remove(
                delete_index as int,
            ),
            free_data(final(fs)@) == free_data(old(fs)@),
    {
        let ghost d = fs@;
        let ghost fs0 = *fs;
        let ghost id = self.id();
        let ghost es = entries(d, id);
        let ghost k = delete_index as int;
        let mut disk_inode: DiskInode = self.read_disk_inode(fs);
        let file_count: usize = disk_inode.size as usize / DIRENT_SZ;
        proof {
            lemma_entry_count(d, id);
        }
        let mut i: usize = delete_index + 1;
        while i < file_count
            invariant
                delete_index == k,
                k < i <= file_count,
                file_count == es.len(),
                fs.wf(),
                fs.same_layout(&fs0),
                id == self.id(),
                live(fs@, id),
                others_same(d, fs@, id),
                inode(fs@, id) == inode(d, id),
                disk_inode@ == inode(d, id),
                disk_inode@.size == 32 * file_count,
                file(fs@, id).len() == disk_inode@.size,
                free_data(fs@) == free_data(d),
                entries(fs@, id).len() == es.len(),
                forall|j: int|
                    0 <= j < es.len() ==> #[trigger] entries(fs@, id)[j] == es[if k <= j < i - 1 {
                        j + 1
                    } else {
                        j
                    }],
            decreases file_count - i,
        {
            let ghost cur = fs@;
            let dirent: DirEntry = read_dirent(&disk_inode, i, fs, Ghost(id));
            let bytes: Vec<u8> = dirent.as_bytes();
            let ghost rec = bytes@;
            write_file(
                &mut disk_inode,
                DIRENT_SZ * (i - 1),
                bytes.as_slice(),
                fs,
                Ghost(id),
            );
            proof {
                lemma_others_same_trans(d, cur, fs@, id, id);
                lemma_entries_update(file(cur, id), i - 1, rec);
                assert(entries(fs@, id) == entries(cur, id).update(
                    i - 1,
                    entries(cur, id)[i as int],
                )) by {
                    reveal(entries);
                }
                assert(entries(cur, id)[i as int] == es[i as int]);
            }
            i += 1;
        }
        let ghost d3 = fs@;
        let new_size: usize = (file_count - 1) * DIRENT_SZ;
        disk_inode.decrease_size(new_size as u32);
        proof {
            lemma_disk_ok(d3, id);
        }
        self.modify_disk_inode(&disk_inode, fs);
        proof {
            let d4 = fs@;
            lemma_replace_inode(d3, id, disk_inode@);
            lemma_others_same_trans(d, d3, d4, id, id);
            lemma_entries_take(file(d3, id), file_count - 1);
            assert(entries(d4, id) == entries(d3, id).take(file_count - 1)) by {
                reveal(entries);
            }
            assert(entries(d4, id) =~= es.remove(k));
        }
    }

    /// Remove the first entry with the given name and its link. A file whose last link
    /// this was gives its blocks back.
    #[verifier::rlimit(40)]
    pub fn unlink<D: BlockDevice>(&self, name: &str, fs: &mut EasyFileSystem<D>) -> (r: bool)
        requires
            old(fs).wf(),
            self.on(old(fs)),
            tree_ok(old(fs)@),
            inode(old(fs)@, self.id()).kind == DiskInodeType::Directory,
        ensures
            final(fs).wf(),
            final(fs).same_layout(old(fs)),
            tree_ok(final(fs)@),
            r == has_name(entries(old(fs)@, self.id()), encode_utf8(name@)),
            !r ==> final(fs)@ == old(fs)@,
            r ==> unlinked(old(fs)@, final(fs)@, self.id(), encode_utf8(name@))
                && final(fs).block_device.synced(),
    {
        let ghost d = fs@;
        let ghost fs0 = *fs;
        let ghost es = entries(d, 0);
        let ghost nm = encode_utf8(name@);
        let ghost k = find_from(es, nm, 0);
        proof {
            if self.id() != 0 {
                assert(file_ok(d, self.id()));
            }
            lemma_find_from(es, nm, 0);
        }
        if let Some(inode_found) = self.find(name, fs) {
            let ghost id = inode_found.id();
            proof {
                assert(live(d, es[k].inode_id as int));
                assert(file_ok(d, id));
                lemma_links_positive(es, k);
            }
            if inode_found.get_nlink(fs) == 1 {
                inode_found.clear(fs);
            }
            let ghost d1 = fs@;
            proof {
                if d1 != d {
                    assert(same_file(d, d1, 0));
                    lemma_same_entries(d, d1, 0);
                }
                assert(file_ok(d1, id));
            }
            let current_nlink: u32 = inode_found.get_nlink(fs);
            inode_found.set_nlink(current_nlink - 1, fs);
            let ghost d2 = fs@;
            proof {
                lemma_dir_kept(d1, d2, id);
            }
            let root_inode: DiskInode = self.read_disk_inode(fs);
            let delete_index: usize = self.find_direntry_index(name, &root_inode, fs).unwrap();
            self.remove_dirent(delete_index, fs);
            proof {
                lemma_tree_unlinked(d, d1, d2, fs@, k);
            }
            fs.block_device.block_cache_sync_all();
            true
        } else {
            false
        }
    }
}

} // verus!
