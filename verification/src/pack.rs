//! Packing programs into a file system.
use crate::easy_fs::block_dev::BlockDevice;
use crate::easy_fs::disk::{file, free_data, inode, inode_exists, lemma_disk_ok, live, same_file};
use crate::easy_fs::efs::EasyFileSystem;
use crate::easy_fs::laws::{law_find_after_append, law_read_after_write};
use crate::easy_fs::layout::{
    empty_inode, growth, padded_name, DiskInodeType, EntryModel, DIRENT_SZ, NAME_LENGTH_LIMIT,
};
use crate::easy_fs::model::{data_blocks_of, INDIRECT2_BOUND};
use crate::easy_fs::tree::{entries, file_ok, find_from, has_name, lemma_same_entries, tree_ok};
use crate::easy_fs::vfs::{room, Inode};
use vstd::prelude::*;
use vstd::utf8::encode_utf8;

verus! {

/// A program can be packed: there is no file with its name, and there is room for another
/// one with its bytes.
pub open spec fn can_pack(d: Seq<Seq<u8>>, name: Seq<u8>, data: Seq<u8>) -> bool {
    let dir = file(d, 0).len() + DIRENT_SZ;
    &&& !has_name(entries(d, 0), name)
    &&& name.len() <= NAME_LENGTH_LIMIT
    &&& room(d, 0, dir)
    &&& exists|k: int| #[trigger] inode_exists(d, k) && !live(d, k)
    &&& data.len() <= u32::MAX
    &&& data_blocks_of(data.len() as int) <= INDIRECT2_BOUND
    &&& growth(inode(d, 0), dir) + growth(
        empty_inode(DiskInodeType::File),
        data.len() as int,
    ) <= free_data(d)
}

/// A file with a name and bytes was added, and all others are as they were.
pub open spec fn packed(
    d: Seq<Seq<u8>>,
    d2: Seq<Seq<u8>>,
    name: Seq<u8>,
    data: Seq<u8>,
    id: int,
) -> bool {
    &&& inode_exists(d, id) && !live(d, id)
    &&& forall|j: int| 0 <= j < id ==> #[trigger] live(d, j)
    &&& live(d2, id)
    &&& inode(d2, id).kind == DiskInodeType::File
    &&& file(d2, id) == data
    &&& entries(d2, 0) == entries(d, 0).push(
        EntryModel { name: padded_name(name), inode_id: id as u32 },
    )
    &&& forall|j: int| j != 0 && live(d, j) ==> #[trigger] same_file(d, d2, j)
}

/// Create a file in the root directory of a file system, and write a program to it.
pub fn pack_app<D: BlockDevice>(name: &str, data: &[u8], fs: &mut EasyFileSystem<D>) -> (r: Inode)
    requires
        old(fs).wf(),
        tree_ok(old(fs)@),
        can_pack(old(fs)@, encode_utf8(name@), data@),
    ensures
        final(fs).wf(),
        final(fs).same_layout(old(fs)),
        final(fs).block_device.synced(),
        tree_ok(final(fs)@),
        r.on(final(fs)),
        packed(old(fs)@, final(fs)@, encode_utf8(name@), data@, r.id()),
{
    let ghost d = fs@;
    let root_inode: Inode = fs.root_inode();
    let len: usize = data.len();
    // create a file in easy-fs
    let inode: Inode = root_inode.create(name, fs).unwrap();
    let ghost d1 = fs@;
    let ghost id = inode.id();
    proof {
        assert(live(d1, id) && id != 0);
        assert(file_ok(d1, id));
        lemma_disk_ok(d1, id);
    }
    // write data to easy-fs
    inode.write_at(0, data, fs);
    proof {
        law_read_after_write(d1, fs@, id, 0, data@);
        assert(file(fs@, id) =~= data@);
        assert(same_file(d1, fs@, 0));
        lemma_same_entries(d1, fs@, 0);
        assert forall|j: int| j != 0 && live(d, j) implies #[trigger] same_file(d, fs@, j) by {
            assert(same_file(d, d1, j));
            assert(same_file(d1, fs@, j));
        }
    }
    inode
}

/// What was packed is found under its name, with its bytes, and every other file is found
/// where it was.
pub proof fn law_packed_is_found(
    d: Seq<Seq<u8>>,
    d2: Seq<Seq<u8>>,
    name: Seq<u8>,
    data: Seq<u8>,
    id: int,
    other: Seq<u8>,
)
    requires
        packed(d, d2, name, data, id),
        !has_name(entries(d, 0), name),
        name.len() <= NAME_LENGTH_LIMIT,
        forall|i: int| 0 <= i < name.len() ==> name[i] != 0,
        0 <= id <= u32::MAX,
    ensures
        ({
            let es = entries(d2, 0);
            &&& has_name(es, name)
            &&& es[find_from(es, name, 0)].inode_id == id
            &&& file(d2, es[find_from(es, name, 0)].inode_id as int) == data
            &&& has_name(entries(d, 0), other) ==> find_from(es, other, 0) == find_from(
                entries(d, 0),
                other,
                0,
            )
        }),
{
    law_find_after_append(entries(d, 0), name, other, id as u32);
}

} // verus!
