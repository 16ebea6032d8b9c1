//! What holds of the file system over several operations.
use super::bitmap::{bit, lemma_with_bit, with_bit};
use super::block_cache::zero_block;
use super::block_dev::BlockDevice;
use super::bytes::word;
use super::disk::{
    data_area, data_bitmap, disk_ok, file, free_data, freed, geometry_ok, in_data_area, inode,
    inode_area, inode_block, inode_exists, inode_offset, lemma_bits_same, lemma_disk_ok,
    lemma_extended, lemma_free_block, lemma_freed_bit, lemma_others_same_trans, lemma_same_super,
    lemma_take_block, live, others_same, same_file, super_block, taken, zero_tail,
};
use super::efs::EasyFileSystem;
use super::layout::{
    cleared, empty_inode, grown, lemma_padded_name, padded_name, transfer_len, EntryModel,
    NAME_LENGTH_LIMIT,
};
use super::model::{
    child_pos, entry, is_index_pos, lemma_block_of, lemma_pos, lemma_total_monotonic, pos_of,
    InodeModel,
};
use super::tree::{
    entries, file_ok, find_from, has_name, lemma_find_from, lemma_find_unique, lemma_links_none,
    lemma_links_positive, links, name_of, tree_ok,
};
use super::vfs::{larger, linked, unlinked, was_written};
use vstd::prelude::*;

verus! {

/// A write is read back: after `write_at` put `data` at `off`, a read of as many bytes
/// at `off` gets `data`. The bytes of the file before and behind the data are those that
/// were there, and a gap between the old end of the file and the data reads as zero.
pub proof fn law_read_after_write(
    d: Seq<Seq<u8>>,
    d2: Seq<Seq<u8>>,
    id: int,
    off: int,
    data: Seq<u8>,
)
    requires
        0 <= off,
        inode(d, id).size == file(d, id).len(),
        zero_tail(d, id),
        was_written(d, d2, id, off, data),
    ensures
        file(d2, id).len() == if file(d, id).len() < off + data.len() {
            off + data.len()
        } else {
            file(d, id).len() as int
        },
        transfer_len(off, data.len() as int, file(d2, id).len() as int) == data.len(),
        file(d2, id).subrange(off, off + data.len()) == data,
        forall|k: int|
            0 <= k < file(d2, id).len() && !(off <= k < off + data.len())
                ==> #[trigger] file(d2, id)[k] == if k < file(d, id).len() {
                file(d, id)[k]
            } else {
                0
            },
{
    let n = larger(file(d, id).len() as int, off + data.len());
    lemma_extended(d, id, n);
    let f = file(d2, id);
    assert(f.subrange(off, off + data.len()) =~= data);
}

/// Reading an empty file gets nothing, wherever the read starts.
pub proof fn law_empty_file_reads_nothing(off: int, len: int)
    requires
        0 <= off,
        0 <= len,
    ensures
        transfer_len(off, len, 0) == 0,
{
}

/// A name without a zero byte that a directory did not have is found in the entry that
/// was appended for it, and every name that was there is found where it was.
pub proof fn law_find_after_append(es: Seq<EntryModel>, name: Seq<u8>, other: Seq<u8>, inode_id: u32)
    requires
        name.len() <= NAME_LENGTH_LIMIT,
        forall|i: int| 0 <= i < name.len() ==> name[i] != 0,
        !has_name(es, name),
    ensures
        ({
            let es2 = es.push(EntryModel { name: padded_name(name), inode_id });
            &&& has_name(es2, name)
            &&& es2[find_from(es2, name, 0)].inode_id == inode_id
            &&& has_name(es, other) ==> find_from(es2, other, 0) == find_from(es, other, 0)
            &&& other != name ==> has_name(es2, other) == has_name(es, other)
        }),
{
    let e = EntryModel { name: padded_name(name), inode_id };
    let es2 = es.push(e);
    lemma_padded_name(name);
    lemma_find_from(es, name, 0);
    assert forall|j: int| 0 <= j < es.len() implies name_of(#[trigger] es2[j]) != name by {
        assert(es2[j] == es[j]);
        assert(name_of(es[j]) != name);
    }
    lemma_find_unique(es2, name, es.len() as int);
    lemma_find_from(es, other, 0);
    let f = find_from(es, other, 0);
    if f < es.len() {
        assert forall|j: int| 0 <= j < f implies name_of(#[trigger] es2[j]) != other by {
            assert(es2[j] == es[j]);
        }
        assert(es2[f] == es[f]);
        lemma_find_unique(es2, other, f);
    } else if other != name {
        lemma_find_from(es2, other, 0);
        let g = find_from(es2, other, 0);
        if g < es.len() {
            assert(es2[g] == es[g]);
        }
    }
}

/// After the first entry with a name was removed, the name is found no more if no other
/// entry had it, and every other name is found as before.
pub proof fn law_find_after_remove(es: Seq<EntryModel>, name: Seq<u8>, other: Seq<u8>)
    requires
        has_name(es, name),
        other != name,
    ensures
        ({
            let k = find_from(es, name, 0);
            let es2 = es.remove(k);
            &&& (forall|j: int| 0 <= j < es.len() && j != k ==> name_of(#[trigger] es[j]) != name)
                ==> !has_name(es2, name)
            &&& has_name(es2, other) == has_name(es, other)
            &&& has_name(es, other) ==> es2[find_from(es2, other, 0)] == es[find_from(es, other, 0)]
        }),
{
    let k = find_from(es, name, 0);
    let es2 = es.remove(k);
    lemma_find_from(es, name, 0);
    lemma_find_from(es2, name, 0);
    lemma_find_from(es, other, 0);
    lemma_find_from(es2, other, 0);
    assert forall|j: int| 0 <= j < es2.len() implies #[trigger] es2[j] == es[if j < k {
        j
    } else {
        j + 1
    }] by {}
    if forall|j: int| 0 <= j < es.len() && j != k ==> name_of(#[trigger] es[j]) != name {
        let g = find_from(es2, name, 0);
        if g < es2.len() {
            assert(name_of(es2[g]) == name);
            assert(es2[g] == es[if g < k {
                g
            } else {
                g + 1
            }]);
        }
    }
    let f = find_from(es, other, 0);
    if f < es.len() {
        assert(f != k);
        let f2 = if f < k {
            f
        } else {
            f - 1
        };
        assert(es2[f2] == es[f]);
        assert forall|j: int| 0 <= j < f2 implies name_of(#[trigger] es2[j]) != other by {
            let i = if j < k {
                j
            } else {
                j + 1
            };
            assert(es2[j] == es[i]);
            assert(name_of(es[i]) != other);
        }
        lemma_find_unique(es2, other, f2);
    } else {
        let g = find_from(es2, other, 0);
        if g < es2.len() {
            let i = if g < k {
                g
            } else {
                g + 1
            };
            assert(es2[g] == es[i]);
            assert(name_of(es[i]) != other);
        }
    }
}

/// In a consistent tree a file has a link for every entry that leads to it, so it has
/// none exactly if no entry leads to it.
pub proof fn law_links(d: Seq<Seq<u8>>, id: int)
    requires
        tree_ok(d),
        live(d, id),
        id != 0,
    ensures
        inode(d, id).nlink == links(entries(d, 0), id),
        inode(d, id).nlink == 0 <==> forall|k: int|
            0 <= k < entries(d, 0).len() ==> (#[trigger] entries(d, 0)[k]).inode_id != id,
{
    let es = entries(d, 0);
    assert(file_ok(d, id));
    if links(es, id) == 0 {
        assert forall|k: int| 0 <= k < es.len() implies (#[trigger] es[k]).inode_id != id by {
            lemma_links_positive(es, k);
        }
    } else if forall|k: int| 0 <= k < es.len() ==> (#[trigger] es[k]).inode_id != id {
        lemma_links_none(es, id);
    }
}

/// Allocating a block and giving it back leaves every file, every other block and the
/// number of free blocks as they were.
pub proof fn law_alloc_dealloc(d: Seq<Seq<u8>>, b: int)
    requires
        disk_ok(d),
        in_data_area(d, b),
        !taken(d, b),
    ensures
        ({
            let s = super_block(d);
            let d2 = freed(with_bit(d, data_bitmap(s), b - data_area(s), true), b);
            &&& disk_ok(d2)
            &&& others_same(d, d2, -1)
            &&& free_data(d2) == free_data(d)
            &&& forall|c: int| #[trigger] in_data_area(d, c) ==> taken(d2, c) == taken(d, c)
        }),
{
    let s = super_block(d);
    let d1 = with_bit(d, data_bitmap(s), b - data_area(s), true);
    let d2 = freed(d1, b);
    lemma_take_block(d, b);
    lemma_free_block(d1, b);
    lemma_others_same_trans(d, d1, d2, -1, -1);
    assert forall|c: int| #[trigger] in_data_area(d, c) implies taken(d2, c) == taken(d, c) by {
        assert(in_data_area(d1, c));
        if c == b {
            lemma_disk_ok(d1, 0);
            lemma_freed_bit(d1, b);
        }
    }
}

/// A file system that was opened on the blocks that another one left behind is
/// consistent, and its areas lie where they lay.
pub proof fn law_reopen<D: BlockDevice>(fs: &EasyFileSystem<D>, again: &EasyFileSystem<D>)
    requires
        fs.wf(),
        again.block_device.inv(),
        again@ == fs@,
        again.matches(super_block(again@)),
    ensures
        again.wf(),
        again.same_layout(fs),
{
}

/// Every inode that the inode bitmap can hand out has a place of its own in the inode area:
/// it lies neither in the inode bitmap before the area nor in the data bitmap behind it.
pub proof fn law_inode_places(d: Seq<Seq<u8>>, id: int, other: int)
    requires
        geometry_ok(d),
        0 <= id < super_block(d).inode_bitmap_blocks * 4096,
        0 <= other < super_block(d).inode_bitmap_blocks * 4096,
    ensures
        inode_exists(d, id),
        inode_area(super_block(d)) <= inode_block(super_block(d), id) < data_bitmap(super_block(d)),
        0 <= inode_offset(id) <= 512 - 132,
        id != other ==> inode_block(super_block(d), id) != inode_block(super_block(d), other)
            || inode_offset(id) + 132 <= inode_offset(other) || inode_offset(other) + 132
            <= inode_offset(id),
{
}

/// A block of data that was allocated, filled with anything and given back is zero and is
/// the next one to be allocated: its bit is the first clear one, as it was. No other block
/// of data and no other bit has changed.
pub proof fn law_freed_is_next(d: Seq<Seq<u8>>, k: int, filling: Seq<u8>)
    requires
        geometry_ok(d),
        0 <= k < super_block(d).data_area_blocks,
        !bit(d, data_bitmap(super_block(d)), k),
        forall|j: int| 0 <= j < k ==> #[trigger] bit(d, data_bitmap(super_block(d)), j),
        filling.len() == 512,
    ensures
        ({
            let start = data_bitmap(super_block(d));
            let b = data_area(super_block(d)) + k;
            let d1 = with_bit(d, start, k, true).update(b, filling);
            let d2 = with_bit(d1.update(b, zero_block()), start, k, false);
            &&& d2[b] == zero_block()
            &&& !bit(d2, start, k)
            &&& forall|j: int| 0 <= j < k ==> #[trigger] bit(d2, start, j)
            &&& super_block(d2) == super_block(d)
            &&& d2.len() == d.len()
            &&& forall|j: int|
                0 <= j < super_block(d).data_bitmap_blocks * 4096 ==> #[trigger] bit(d2, start, j)
                    == bit(d, start, j)
            &&& forall|c: int|
                0 <= c < d.len() && c != b && c != start + k / 4096 ==> #[trigger] d2[c] == d[c]
        }),
{
    let s = super_block(d);
    let start = data_bitmap(s);
    let b = data_area(s) + k;
    let d0 = with_bit(d, start, k, true);
    let d1 = d0.update(b, filling);
    let d3 = d1.update(b, zero_block());
    let d2 = with_bit(d3, start, k, false);
    lemma_with_bit(d, start, k, true);
    lemma_with_bit(d3, start, k, false);
    lemma_same_super(d, d2);
    assert forall|j: int| 0 <= j < s.data_bitmap_blocks * 4096 implies #[trigger] bit(d2, start, j)
        == bit(d, start, j) by {
        lemma_bits_same(d0, d3, start, j);
    }
}

/// Growing a file in two steps is growing it in one: the same inode, the same blocks and
/// the same disk come of it. The blocks of data that it had stay where they were.
pub proof fn law_growth_in_steps(
    m: InodeModel,
    m1: InodeModel,
    m2: InodeModel,
    w: InodeModel,
    d: Seq<Seq<u8>>,
    d1: Seq<Seq<u8>>,
    d2: Seq<Seq<u8>>,
    e: Seq<Seq<u8>>,
    n1: u32,
    n2: u32,
    v1: Seq<u32>,
    v2: Seq<u32>,
)
    requires
        m.wf(d),
        m1.wf(d1),
        m2.wf(d2),
        w.wf(e),
        m.size <= n1 <= n2,
        grown(m, m1, d, d1, n1, v1),
        grown(m1, m2, d1, d2, n2, v2),
        grown(m, w, d, e, n2, v1 + v2),
    ensures
        m2 == w,
        m2.owned(d2) == w.owned(e),
        d2 == e,
        forall|i: int| 0 <= i < w.blocks() ==> #[trigger] m2.block_of(d2, i) == w.block_of(e, i),
        forall|i: int| 0 <= i < m.blocks() ==> #[trigger] m2.block_of(d2, i) == m.block_of(d, i),
{
    let plan = w.owned(e);
    assert(m2.owned(d2) =~= plan);
    lemma_total_monotonic(m.blocks(), m1.blocks());
    lemma_total_monotonic(m1.blocks(), m2.blocks());
    assert(m2.direct =~= w.direct) by {
        assert forall|i: int| 0 <= i < 28 implies m2.direct[i] == w.direct[i] by {
            if i < w.blocks() {
                assert(m2.owned(d2)[i] == plan[i]);
            } else {
                assert(m1.direct[i] == m.direct[i]);
            }
        }
    }
    if w.blocks() > 28 {
        assert(m2.owned(d2)[28] == plan[28]);
    }
    if w.blocks() > 156 {
        assert(m2.owned(d2)[157] == plan[157]);
    }
    assert forall|i: int| 0 <= i < w.blocks() implies #[trigger] m2.block_of(d2, i) == w.block_of(
        e,
        i,
    ) by {
        lemma_pos(i, w.blocks());
        lemma_block_of(m2, d2, i);
        lemma_block_of(w, e, i);
        assert(m2.owned(d2)[pos_of(i)] == plan[pos_of(i)]);
    }
    assert forall|i: int| 0 <= i < m.blocks() implies #[trigger] m2.block_of(d2, i) == m.block_of(
        d,
        i,
    ) by {
        lemma_pos(i, m.blocks());
        lemma_pos(i, m2.blocks());
        lemma_block_of(m2, d2, i);
        lemma_block_of(m, d, i);
        assert(m2.owned(d2)[pos_of(i)] == m.owned(d)[pos_of(i)]);
    }
    assert forall|b: int| 0 <= b < d.len() implies #[trigger] d2[b] == e[b] by {
        lemma_step_block(m, m1, m2, w, d, d1, d2, e, n1, n2, v1, v2, b);
    }
    assert(d2 =~= e);
}

/// A block of the disk is the same after two steps as after one.
proof fn lemma_step_block(
    m: InodeModel,
    m1: InodeModel,
    m2: InodeModel,
    w: InodeModel,
    d: Seq<Seq<u8>>,
    d1: Seq<Seq<u8>>,
    d2: Seq<Seq<u8>>,
    e: Seq<Seq<u8>>,
    n1: u32,
    n2: u32,
    v1: Seq<u32>,
    v2: Seq<u32>,
    b: int,
)
    requires
        m.wf(d),
        m1.wf(d1),
        m2.wf(d2),
        w.wf(e),
        m.size <= n1 <= n2,
        grown(m, m1, d, d1, n1, v1),
        grown(m1, m2, d1, d2, n2, v2),
        grown(m, w, d, e, n2, v1 + v2),
        m2.owned(d2) == w.owned(e),
        0 <= b < d.len(),
    ensures
        d2[b] == e[b],
{
    let plan = w.owned(e);
    let plan1 = m1.owned(d1);
    let t = plan.len() as int;
    let t1 = plan1.len() as int;
    assert(forall|q: int| 0 <= q < t1 ==> plan[q] == #[trigger] plan1[q]);
    if exists|q: int| 0 <= q < t && is_index_pos(q) && #[trigger] plan[q] == b {
        let q = choose|q: int| 0 <= q < t && is_index_pos(q) && #[trigger] plan[q] == b;
        assert forall|j: int| 0 <= j < 128 implies #[trigger] word(d2[b], j) == word(e[b], j) by {
            let c = child_pos(q, j);
            assert(word(d2[b], j) == entry(d2, plan[q], j));
            assert(word(e[b], j) == entry(e, plan[q], j));
            if c < t {
                assert(m2.owned(d2)[q] == m2.owned_at(d2, q));
                assert(m2.owned(d2)[c] == m2.owned_at(d2, c));
                assert(w.owned(e)[q] == w.owned_at(e, q));
                assert(w.owned(e)[c] == w.owned_at(e, c));
                lemma_child(m2, d2, q, j);
                lemma_child(w, e, q, j);
            } else {
                assert(entry(e, plan[q], j) == entry(d, plan[q], j));
                assert(entry(d2, plan[q], j) == entry(d1, plan[q], j));
                if q < t1 {
                    assert(plan1[q] == plan[q]);
                    assert(entry(d1, plan1[q], j) == entry(d, plan1[q], j));
                } else {
                    assert forall|x: int| 0 <= x < t1 && is_index_pos(x) implies #[trigger] plan1[x]
                        != b by {
                        assert(plan[x] == plan1[x]);
                    }
                    assert(d1[b] == d[b]);
                }
            }
        }
        lemma_words(d2[b], e[b]);
    } else {
        assert forall|q: int| 0 <= q < t1 && is_index_pos(q) implies #[trigger] plan1[q] != b by {
            assert(plan[q] == plan1[q]);
        }
        assert(d1[b] == d[b]);
        assert(d2[b] == d1[b]);
        assert(e[b] == d[b]);
    }
}

/// The entries of an index block of a file are the blocks that it stands for.
proof fn lemma_child(m: InodeModel, d: Seq<Seq<u8>>, q: int, j: int)
    requires
        0 <= q,
        is_index_pos(q),
        0 <= j < 128,
    ensures
        m.owned_at(d, child_pos(q, j)) == entry(d, m.owned_at(d, q), j),
{
    if q >= 158 {
        let a = (q - 158) / 129;
        assert(q == 158 + 129 * a);
        assert((q + 1 + j - 158) / 129 == a);
        assert((q + 1 + j - 158) % 129 == 1 + j);
    }
}

/// A block is known by its words.
proof fn lemma_words(a: Seq<u8>, b: Seq<u8>)
    requires
        a.len() == 512,
        b.len() == 512,
        forall|j: int| 0 <= j < 128 ==> #[trigger] word(a, j) == word(b, j),
    ensures
        a == b,
{
    assert forall|i: int| 0 <= i < 512 implies a[i] == b[i] by {
        let j = i / 4;
        assert(word(a, j) == word(b, j));
        let o = 4 * j;
        lemma_four_bytes(a[o], a[o + 1], a[o + 2], a[o + 3], b[o], b[o + 1], b[o + 2], b[o + 3]);
        assert(i == o || i == o + 1 || i == o + 2 || i == o + 3);
    }
    assert(a =~= b);
}

/// A word is known by its bytes.
proof fn lemma_four_bytes(a0: u8, a1: u8, a2: u8, a3: u8, b0: u8, b1: u8, b2: u8, b3: u8)
    requires
        a0 + 256 * a1 + 65536 * a2 + 16777216 * a3 == b0 + 256 * b1 + 65536 * b2 + 16777216 * b3,
    ensures
        a0 == b0,
        a1 == b1,
        a2 == b2,
        a3 == b3,
{
    let x = a1 + 256 * a2 + 65536 * a3;
    let y = b1 + 256 * b2 + 65536 * b3;
    assert(a0 - b0 == 256 * (y - x));
    assert(x == y && a0 == b0);
    let z = a2 + 256 * a3;
    let w = b2 + 256 * b3;
    assert(a1 - b1 == 256 * (w - z));
    assert(z == w && a1 == b1);
    assert(a2 - b2 == 256 * (b3 - a3));
}

/// Growing an empty inode and clearing it again gives it back as it was, with all slots
/// zero, and the blocks that come back are those that were given, in the same order.
pub proof fn law_growth_undone(
    m: InodeModel,
    m2: InodeModel,
    d: Seq<Seq<u8>>,
    d2: Seq<Seq<u8>>,
    new_size: u32,
    blocks: Seq<u32>,
)
    requires
        m == (InodeModel { kind: m.kind, nlink: m.nlink, ..empty_inode(m.kind) }),
        grown(m, m2, d, d2, new_size, blocks),
    ensures
        cleared(m2) == m,
        m2.owned(d2) == blocks,
{
    assert(m.owned(d) =~= Seq::<u32>::empty());
    assert(Seq::<u32>::empty() + blocks =~= blocks);
    assert(cleared(m2).direct =~= m.direct) by {
        assert forall|i: int| 0 <= i < 28 implies cleared(m2).direct[i] == m.direct[i] by {
            if i >= m2.blocks() {
                assert(m2.direct[i] == m.direct[i]);
            }
        }
    }
}

/// Removing a name takes back the link that gave it: after `link` gave the file `old_name` the
/// unused name `new_name` and `unlink` removed that name, the directory lists what it listed,
/// and the file has the links and the content that it had. So has every other file, and the
/// same inodes are in use.
pub proof fn law_link_undone(
    d: Seq<Seq<u8>>,
    d1: Seq<Seq<u8>>,
    d2: Seq<Seq<u8>>,
    old_name: Seq<u8>,
    new_name: Seq<u8>,
)
    requires
        tree_ok(d),
        has_name(entries(d, 0), old_name),
        !has_name(entries(d, 0), new_name),
        new_name.len() <= NAME_LENGTH_LIMIT,
        forall|i: int| 0 <= i < new_name.len() ==> new_name[i] != 0,
        linked(d, d1, 0, old_name, new_name),
        unlinked(d1, d2, 0, new_name),
    ensures
        ({
            let es = entries(d, 0);
            let id = es[find_from(es, old_name, 0)].inode_id as int;
            &&& entries(d2, 0) == es
            &&& inode(d2, id) == inode(d, id)
            &&& file(d2, id) == file(d, id)
            &&& forall|j: int| #[trigger] live(d2, j) <==> live(d, j)
            &&& forall|j: int|
                j != 0 && j != id && live(d, j) ==> #[trigger] same_file(d, d2, j)
        }),
{
    let es = entries(d, 0);
    let k = find_from(es, old_name, 0);
    let id = es[k].inode_id as int;
    let e = EntryModel { name: padded_name(new_name), inode_id: es[k].inode_id };
    let es1 = es.push(e);
    lemma_find_from(es, old_name, 0);
    lemma_find_from(es, new_name, 0);
    lemma_padded_name(new_name);
    assert forall|j: int| 0 <= j < es.len() implies name_of(#[trigger] es1[j]) != new_name by {
        assert(es1[j] == es[j]);
        assert(name_of(es[j]) != new_name);
    }
    lemma_find_unique(es1, new_name, es.len() as int);
    assert(es1.remove(es.len() as int) =~= es);
    assert(live(d, id));
    assert(file_ok(d, id));
    lemma_links_positive(es, k);
    assert forall|j: int| j != 0 && j != id && live(d, j) implies #[trigger] same_file(
        d,
        d2,
        j,
    ) by {
        assert(live(d1, j));
        assert(same_file(d, d1, j));
        assert(same_file(d1, d2, j));
    }
    assert forall|j: int| #[trigger] live(d2, j) <==> live(d, j) by {
        assert(live(d1, j) <==> live(d, j));
    }
}

} // verus!
