//! What the directory on a disk means, and what keeps it consistent with the files.
use super::bytes::{splice, Record};
use super::disk::{disk_ok, file, inode, live, others_same, same_file, zero_tail};
use super::layout::{cstr, zero_from, DirEntry, DiskInodeType, EntryModel};
use vstd::prelude::*;
use vstd::utf8::valid_utf8;

verus! {

/// The entries in the bytes of a directory.
pub open spec fn entries_of(bytes: Seq<u8>) -> Seq<EntryModel> {
    Seq::new(
        (bytes.len() / 32) as nat,
        |i: int| DirEntry::decode(bytes.subrange(32 * i, 32 * i + 32)),
    )
}

/// The entries of a directory.
#[verifier::opaque]
pub open spec fn entries(d: Seq<Seq<u8>>, id: int) -> Seq<EntryModel> {
    entries_of(file(d, id))
}

/// The name in an entry, as bytes.
pub open spec fn name_of(e: EntryModel) -> Seq<u8> {
    cstr(e.name)
}

/// The name in an entry ends within its field and is valid UTF-8.
pub open spec fn entry_ok(e: EntryModel) -> bool {
    &&& e.name.len() == 28
    &&& zero_from(e.name, 0) < 28
    &&& valid_utf8(name_of(e))
}

/// The index, from `i` on, of the first entry with the given name, or the number of
/// entries if there is none.
pub open spec fn find_from(es: Seq<EntryModel>, name: Seq<u8>, i: int) -> int
    decreases es.len() - i,
{
    if i < 0 || i >= es.len() || name_of(es[i]) == name {
        i
    } else {
        find_from(es, name, i + 1)
    }
}

/// Some entry has the name.
pub open spec fn has_name(es: Seq<EntryModel>, name: Seq<u8>) -> bool {
    find_from(es, name, 0) < es.len()
}

/// The number of entries that lead to an inode.
pub open spec fn links(es: Seq<EntryModel>, id: int) -> nat
    decreases es.len(),
{
    if es.len() == 0 {
        0
    } else {
        links(es.drop_last(), id) + (if es.last().inode_id == id {
            1nat
        } else {
            0
        })
    }
}

/// A directory holds whole entries, each with a name and an allocated file.
pub open spec fn dir_ok(d: Seq<Seq<u8>>, id: int) -> bool {
    &&& live(d, id)
    &&& inode(d, id).kind == DiskInodeType::Directory
    &&& inode(d, id).size == file(d, id).len()
    &&& file(d, id).len() % 32 == 0
    &&& forall|i: int|
        0 <= i < entries(d, id).len() ==> {
            let e = #[trigger] entries(d, id)[i];
            &&& entry_ok(e)
            &&& live(d, e.inode_id as int)
            &&& inode(d, e.inode_id as int).kind == DiskInodeType::File
        }
}

/// A file has as many links as entries lead to it, and zero bytes behind its end.
pub open spec fn file_ok(d: Seq<Seq<u8>>, id: int) -> bool {
    &&& inode(d, id).kind == DiskInodeType::File
    &&& inode(d, id).nlink == links(entries(d, 0), id)
    &&& zero_tail(d, id)
}

/// The disk is consistent, inode 0 is its one directory, and the others are the files
/// that its entries lead to or led to.
pub open spec fn tree_ok(d: Seq<Seq<u8>>) -> bool {
    &&& disk_ok(d)
    &&& dir_ok(d, 0)
    &&& forall|id: int| #[trigger] live(d, id) && id != 0 ==> file_ok(d, id)
}

/// `find_from` stops at the first entry with the name.
pub proof fn lemma_find_from(es: Seq<EntryModel>, name: Seq<u8>, i: int)
    requires
        0 <= i <= es.len(),
    ensures
        i <= find_from(es, name, i) <= es.len(),
        forall|k: int| i <= k < find_from(es, name, i) ==> name_of(#[trigger] es[k]) != name,
        find_from(es, name, i) < es.len() ==> name_of(es[find_from(es, name, i)]) == name,
    decreases es.len() - i,
{
    if i < es.len() && name_of(es[i]) != name {
        lemma_find_from(es, name, i + 1);
    }
}

/// An index that `find_from` stops at is the only one of which this holds.
pub proof fn lemma_find_unique(es: Seq<EntryModel>, name: Seq<u8>, k: int)
    requires
        0 <= k < es.len(),
        name_of(es[k]) == name,
        forall|j: int| 0 <= j < k ==> name_of(#[trigger] es[j]) != name,
    ensures
        find_from(es, name, 0) == k,
{
    lemma_find_from(es, name, 0);
    let f = find_from(es, name, 0);
    if f > k {
        assert(name_of(es[k]) != name);
    } else if f < k {
        assert(name_of(es[f]) != name);
    }
}

/// There are no more links than entries.
pub proof fn lemma_links_bound(es: Seq<EntryModel>, id: int)
    ensures
        links(es, id) <= es.len(),
    decreases es.len(),
{
    if es.len() > 0 {
        lemma_links_bound(es.drop_last(), id);
    }
}

/// An entry that leads to an inode is counted.
pub proof fn lemma_links_positive(es: Seq<EntryModel>, k: int)
    requires
        0 <= k < es.len(),
    ensures
        links(es, es[k].inode_id as int) >= 1,
    decreases es.len(),
{
    if k < es.len() - 1 {
        lemma_links_positive(es.drop_last(), k);
    }
}

/// A new entry adds a link.
pub proof fn lemma_links_push(es: Seq<EntryModel>, e: EntryModel, id: int)
    ensures
        links(es.push(e), id) == links(es, id) + (if e.inode_id == id {
            1nat
        } else {
            0
        }),
{
    assert(es.push(e).drop_last() =~= es);
}

/// An entry that leaves takes its link with it.
pub proof fn lemma_links_remove(es: Seq<EntryModel>, k: int, id: int)
    requires
        0 <= k < es.len(),
    ensures
        links(es, id) == links(es.remove(k), id) + (if es[k].inode_id == id {
            1nat
        } else {
            0
        }),
    decreases es.len(),
{
    if k == es.len() - 1 {
        assert(es.remove(k) =~= es.drop_last());
    } else {
        lemma_links_remove(es.drop_last(), k, id);
        assert(es.remove(k).drop_last() =~= es.drop_last().remove(k));
        assert(es.remove(k).last() == es.last());
    }
}

/// An inode without entries has no links.
pub proof fn lemma_links_none(es: Seq<EntryModel>, id: int)
    requires
        forall|k: int| 0 <= k < es.len() ==> (#[trigger] es[k]).inode_id != id,
    ensures
        links(es, id) == 0,
    decreases es.len(),
{
    if es.len() > 0 {
        assert(es.last() == es[es.len() - 1]);
        assert forall|k: int| 0 <= k < es.drop_last().len() implies (
        #[trigger] es.drop_last()[k]).inode_id != id by {
            assert(es.drop_last()[k] == es[k]);
        }
        lemma_links_none(es.drop_last(), id);
    }
}

/// Appending the bytes of an entry appends the entry.
pub proof fn lemma_entries_push(bytes: Seq<u8>, rec: Seq<u8>)
    requires
        bytes.len() % 32 == 0,
        rec.len() == 32,
    ensures
        entries_of(bytes + rec) == entries_of(bytes).push(DirEntry::decode(rec)),
{
    let n = bytes.len() / 32;
    let a = entries_of(bytes + rec);
    let b = entries_of(bytes).push(DirEntry::decode(rec));
    assert forall|i: int| 0 <= i < a.len() implies a[i] == b[i] by {
        if i < n {
            assert((bytes + rec).subrange(32 * i, 32 * i + 32) =~= bytes.subrange(
                32 * i,
                32 * i + 32,
            ));
        } else {
            assert((bytes + rec).subrange(32 * i, 32 * i + 32) =~= rec);
        }
    }
    assert(a =~= b);
}

/// Overwriting the bytes of an entry replaces the entry.
pub proof fn lemma_entries_update(bytes: Seq<u8>, k: int, rec: Seq<u8>)
    requires
        0 <= k < bytes.len() / 32,
        rec.len() == 32,
    ensures
        entries_of(splice(bytes, 32 * k, rec)) == entries_of(bytes).update(
            k,
            DirEntry::decode(rec),
        ),
{
    let c = splice(bytes, 32 * k, rec);
    let a = entries_of(c);
    let b = entries_of(bytes).update(k, DirEntry::decode(rec));
    assert forall|i: int| 0 <= i < a.len() implies a[i] == b[i] by {
        if i == k {
            assert(c.subrange(32 * i, 32 * i + 32) =~= rec);
        } else {
            assert(c.subrange(32 * i, 32 * i + 32) =~= bytes.subrange(32 * i, 32 * i + 32));
        }
    }
    assert(a =~= b);
}

/// The first bytes of a directory hold its first entries.
pub proof fn lemma_entries_take(bytes: Seq<u8>, n: int)
    requires
        0 <= n <= bytes.len() / 32,
    ensures
        entries_of(bytes.take(32 * n)) == entries_of(bytes).take(n),
{
    let a = entries_of(bytes.take(32 * n));
    assert forall|i: int| 0 <= i < n implies a[i] == entries_of(bytes)[i] by {
        assert(bytes.take(32 * n).subrange(32 * i, 32 * i + 32) =~= bytes.subrange(
            32 * i,
            32 * i + 32,
        ));
    }
    assert(a =~= entries_of(bytes).take(n));
}

/// A directory has an entry for every 32 bytes.
pub proof fn lemma_entry_count(d: Seq<Seq<u8>>, id: int)
    ensures
        entries(d, id).len() == file(d, id).len() / 32,
{
    reveal(entries);
}

/// The directory stays as it is where its disk inode and its bytes do.
pub proof fn lemma_same_entries(d: Seq<Seq<u8>>, d2: Seq<Seq<u8>>, id: int)
    requires
        file(d2, id) == file(d, id),
    ensures
        entries(d2, id) == entries(d, id),
{
    reveal(entries);
}

/// Changing a file keeps the tree consistent, as long as it stays a file with as many
/// links and with zero bytes behind its end.
pub proof fn lemma_tree_file(d: Seq<Seq<u8>>, d2: Seq<Seq<u8>>, id: int)
    requires
        tree_ok(d),
        disk_ok(d2),
        id != 0,
        live(d, id),
        live(d2, id),
        others_same(d, d2, id),
        inode(d2, id).kind == inode(d, id).kind,
        inode(d2, id).nlink == inode(d, id).nlink,
        zero_tail(d2, id),
    ensures
        tree_ok(d2),
        entries(d2, 0) == entries(d, 0),
{
    assert(same_file(d, d2, 0));
    lemma_same_entries(d, d2, 0);
    assert(file_ok(d, id));
    assert(dir_ok(d2, 0)) by {
        let es = entries(d2, 0);
        assert forall|i: int| 0 <= i < es.len() implies {
            let e = #[trigger] es[i];
            &&& entry_ok(e)
            &&& live(d2, e.inode_id as int)
            &&& inode(d2, e.inode_id as int).kind == DiskInodeType::File
        } by {
            let e = entries(d, 0)[i];
            assert(live(d, e.inode_id as int));
            assert(e.inode_id == id || same_file(d, d2, e.inode_id as int));
        }
    }
    assert forall|j: int| #[trigger] live(d2, j) && j != 0 implies file_ok(d2, j) by {
        if j != id {
            assert(live(d, j));
            assert(same_file(d, d2, j));
            assert(file_ok(d, j));
        }
    }
}

/// A new empty file that no entry leads to yet: all is consistent but its links.
pub open spec fn tree_with_new(d: Seq<Seq<u8>>, id: int) -> bool {
    &&& disk_ok(d)
    &&& dir_ok(d, 0)
    &&& forall|j: int| #[trigger] live(d, j) && j != 0 && j != id ==> file_ok(d, j)
}

/// Appending an entry for a file, and counting the link, keeps the tree consistent.
pub proof fn lemma_tree_link(d: Seq<Seq<u8>>, d2: Seq<Seq<u8>>, id: int, e: EntryModel)
    requires
        tree_with_new(d, id),
        disk_ok(d2),
        id != 0,
        e.inode_id == id,
        entry_ok(e),
        live(d, id),
        inode(d, id).kind == DiskInodeType::File,
        zero_tail(d, id),
        // the root directory got the entry
        live(d2, 0),
        inode(d2, 0).kind == DiskInodeType::Directory,
        inode(d2, 0).size == file(d2, 0).len(),
        file(d2, 0).len() % 32 == 0,
        entries(d2, 0) == entries(d, 0).push(e),
        // the other files are as before, but for the links of the file itself
        forall|j: int| j != 0 ==> (#[trigger] live(d2, j) <==> live(d, j)),
        forall|j: int| j != 0 && j != id && live(d, j) ==> #[trigger] same_file(d, d2, j),
        inode(d2, id).kind == DiskInodeType::File,
        inode(d2, id).nlink == links(entries(d, 0), id) + 1,
        zero_tail(d2, id),
    ensures
        tree_ok(d2),
{
    let es = entries(d, 0);
    let es2 = entries(d2, 0);
    assert forall|i: int| 0 <= i < es2.len() implies {
        let x = #[trigger] es2[i];
        &&& entry_ok(x)
        &&& live(d2, x.inode_id as int)
        &&& inode(d2, x.inode_id as int).kind == DiskInodeType::File
    } by {
        if i < es.len() {
            let x = es[i];
            assert(es2[i] == x);
            assert(live(d, x.inode_id as int));
            assert(x.inode_id != 0);
            assert(x.inode_id == id || same_file(d, d2, x.inode_id as int));
        }
    }
    assert forall|j: int| #[trigger] live(d2, j) && j != 0 implies file_ok(d2, j) by {
        lemma_links_push(es, e, j);
        if j != id {
            assert(live(d, j));
            assert(same_file(d, d2, j));
            assert(file_ok(d, j));
        }
    }
}

/// Removing an entry, and its link, keeps the tree consistent.
pub proof fn lemma_tree_unlink(d: Seq<Seq<u8>>, d2: Seq<Seq<u8>>, k: int)
    requires
        tree_ok(d),
        disk_ok(d2),
        0 <= k < entries(d, 0).len(),
        live(d2, 0),
        inode(d2, 0).kind == DiskInodeType::Directory,
        inode(d2, 0).size == file(d2, 0).len(),
        file(d2, 0).len() % 32 == 0,
        entries(d2, 0) == entries(d, 0).remove(k),
        forall|j: int| j != 0 ==> (#[trigger] live(d2, j) <==> live(d, j)),
        forall|j: int|
            j != 0 && j != entries(d, 0)[k].inode_id && live(d, j) ==> #[trigger] same_file(
                d,
                d2,
                j,
            ),
        ({
            let id = entries(d, 0)[k].inode_id as int;
            &&& inode(d2, id).kind == DiskInodeType::File
            &&& inode(d2, id).nlink == inode(d, id).nlink - 1
            &&& zero_tail(d2, id)
        }),
    ensures
        tree_ok(d2),
{
    let es = entries(d, 0);
    let es2 = entries(d2, 0);
    let id = es[k].inode_id as int;
    assert(live(d, id) && id != 0);
    assert(file_ok(d, id));
    assert forall|i: int| 0 <= i < es2.len() implies {
        let x = #[trigger] es2[i];
        &&& entry_ok(x)
        &&& live(d2, x.inode_id as int)
        &&& inode(d2, x.inode_id as int).kind == DiskInodeType::File
    } by {
        let x = es[if i < k {
            i
        } else {
            i + 1
        }];
        assert(es2[i] == x);
        assert(live(d, x.inode_id as int));
        assert(x.inode_id != 0);
        assert(x.inode_id == id || same_file(d, d2, x.inode_id as int));
    }
    assert forall|j: int| #[trigger] live(d2, j) && j != 0 implies file_ok(d2, j) by {
        lemma_links_remove(es, k, j);
        if j != id {
            assert(live(d, j));
            assert(same_file(d, d2, j));
            assert(file_ok(d, j));
        }
    }
}

/// A new file and then an entry that leads to it keep the tree consistent.
pub proof fn lemma_tree_create(
    d: Seq<Seq<u8>>,
    d1: Seq<Seq<u8>>,
    d2: Seq<Seq<u8>>,
    id: int,
    e: EntryModel,
)
    requires
        tree_ok(d),
        !live(d, id),
        disk_ok(d1),
        others_same(d, d1, id),
        live(d1, id),
        inode(d1, id).kind == DiskInodeType::File,
        inode(d1, id).nlink == 1,
        zero_tail(d1, id),
        disk_ok(d2),
        others_same(d1, d2, 0),
        live(d2, 0),
        inode(d2, 0).kind == DiskInodeType::Directory,
        inode(d2, 0).size == file(d2, 0).len(),
        file(d2, 0).len() % 32 == 0,
        entries(d2, 0) == entries(d1, 0).push(e),
        entry_ok(e),
        e.inode_id == id,
    ensures
        tree_ok(d2),
        same_file(d1, d2, id),
        forall|j: int| j != id ==> (#[trigger] live(d2, j) <==> live(d, j)),
        forall|j: int| j != 0 && live(d, j) ==> #[trigger] same_file(d, d2, j),
{
    let es = entries(d, 0);
    assert(same_file(d, d1, 0));
    lemma_same_entries(d, d1, 0);
    assert(same_file(d1, d2, id));
    assert forall|i: int| 0 <= i < es.len() implies {
        let x = #[trigger] es[i];
        &&& entry_ok(x)
        &&& live(d1, x.inode_id as int)
        &&& inode(d1, x.inode_id as int).kind == DiskInodeType::File
        &&& x.inode_id != id
    } by {
        let x = es[i];
        assert(live(d, x.inode_id as int));
        assert(same_file(d, d1, x.inode_id as int));
    }
    assert(dir_ok(d1, 0));
    assert forall|j: int| #[trigger] live(d1, j) && j != 0 && j != id implies file_ok(d1, j) by {
        assert(live(d, j));
        assert(same_file(d, d1, j));
        assert(file_ok(d, j));
    }
    lemma_links_none(es, id);
    assert forall|j: int| j != 0 && j != id && live(d1, j) implies #[trigger] same_file(
        d1,
        d2,
        j,
    ) by {}
    lemma_tree_link(d1, d2, id, e);
    assert forall|j: int| j != 0 && live(d, j) implies #[trigger] same_file(d, d2, j) by {
        assert(same_file(d, d1, j));
        assert(live(d1, j));
        assert(same_file(d1, d2, j));
    }
    assert forall|j: int| j != id implies (#[trigger] live(d2, j) <==> live(d, j)) by {
        if j != 0 {
            assert(live(d2, j) <==> live(d1, j));
        }
    }
}

/// A new entry for a file and then its link keep the tree consistent.
pub proof fn lemma_tree_linked(
    d: Seq<Seq<u8>>,
    d1: Seq<Seq<u8>>,
    d2: Seq<Seq<u8>>,
    id: int,
    e: EntryModel,
)
    requires
        tree_ok(d),
        live(d, id),
        id != 0,
        disk_ok(d1),
        others_same(d, d1, 0),
        live(d1, 0),
        inode(d1, 0).kind == DiskInodeType::Directory,
        inode(d1, 0).size == file(d1, 0).len(),
        file(d1, 0).len() % 32 == 0,
        entries(d1, 0) == entries(d, 0).push(e),
        entry_ok(e),
        e.inode_id == id,
        disk_ok(d2),
        others_same(d1, d2, id),
        live(d2, id),
        inode(d2, id).kind == inode(d1, id).kind,
        inode(d2, id).nlink == inode(d1, id).nlink + 1,
        zero_tail(d1, id) ==> zero_tail(d2, id),
    ensures
        tree_ok(d2),
        same_file(d, d1, id),
        entries(d2, 0) == entries(d1, 0),
        forall|j: int| #[trigger] live(d2, j) <==> live(d, j),
        forall|j: int| j != 0 && j != id && live(d, j) ==> #[trigger] same_file(d, d2, j),
{
    assert(file_ok(d, id));
    assert(same_file(d, d1, id));
    assert(same_file(d1, d2, 0));
    lemma_same_entries(d1, d2, 0);
    assert forall|j: int| j != 0 && j != id && live(d, j) implies #[trigger] same_file(d, d2, j) by {
        assert(same_file(d, d1, j));
        assert(same_file(d1, d2, j));
    }
    assert forall|j: int| #[trigger] live(d2, j) <==> live(d, j) by {
        assert(j == id || (live(d2, j) <==> live(d1, j)));
        assert(j == 0 || (live(d1, j) <==> live(d, j)));
    }
    assert(tree_with_new(d, id));
    lemma_tree_link(d, d2, id, e);
}

/// A changed file that stays a file leaves the directory as it is.
pub proof fn lemma_dir_kept(d: Seq<Seq<u8>>, d2: Seq<Seq<u8>>, id: int)
    requires
        dir_ok(d, 0),
        id != 0,
        live(d2, id),
        inode(d2, id).kind == DiskInodeType::File,
        others_same(d, d2, id),
    ensures
        dir_ok(d2, 0),
        inode(d2, 0) == inode(d, 0),
        entries(d2, 0) == entries(d, 0),
{
    assert(same_file(d, d2, 0));
    lemma_same_entries(d, d2, 0);
    let es = entries(d, 0);
    assert forall|i: int| 0 <= i < es.len() implies {
        let e = #[trigger] es[i];
        &&& entry_ok(e)
        &&& live(d2, e.inode_id as int)
        &&& inode(d2, e.inode_id as int).kind == DiskInodeType::File
    } by {
        let e = es[i];
        assert(live(d, e.inode_id as int));
        assert(e.inode_id == id || same_file(d, d2, e.inode_id as int));
    }
}

/// Clearing a file whose last link goes, taking a link from it, and removing an entry
/// that leads to it keep the tree consistent.
pub proof fn lemma_tree_unlinked(
    d: Seq<Seq<u8>>,
    d1: Seq<Seq<u8>>,
    d2: Seq<Seq<u8>>,
    d4: Seq<Seq<u8>>,
    k: int,
)
    requires
        tree_ok(d),
        tree_ok(d1),
        0 <= k < entries(d, 0).len(),
        ({
            let id = entries(d, 0)[k].inode_id as int;
            &&& d1 == d || others_same(d, d1, id)
            &&& live(d1, id)
            &&& others_same(d1, d2, id)
            &&& live(d2, id)
            &&& inode(d2, id).kind == DiskInodeType::File
            &&& inode(d2, id).nlink == inode(d1, id).nlink - 1
            &&& zero_tail(d1, id) ==> zero_tail(d2, id)
        }),
        entries(d1, 0) == entries(d, 0),
        others_same(d2, d4, 0),
        disk_ok(d4),
        live(d4, 0),
        inode(d4, 0).kind == DiskInodeType::Directory,
        inode(d4, 0).size == file(d4, 0).len(),
        file(d4, 0).len() % 32 == 0,
        entries(d4, 0) == entries(d, 0).remove(k),
    ensures
        tree_ok(d4),
        same_file(d2, d4, entries(d, 0)[k].inode_id as int),
        forall|j: int| #[trigger] live(d4, j) <==> live(d, j),
        forall|j: int|
            j != 0 && j != entries(d, 0)[k].inode_id && live(d, j) ==> #[trigger] same_file(
                d,
                d4,
                j,
            ),
{
    let id = entries(d, 0)[k].inode_id as int;
    assert(live(d, id) && id != 0);
    assert(file_ok(d1, id));
    assert(same_file(d2, d4, id));
    assert forall|j: int| #[trigger] live(d4, j) <==> live(d1, j) by {
        assert(j == 0 || (live(d4, j) <==> live(d2, j)));
        assert(j == id || (live(d2, j) <==> live(d1, j)));
    }
    assert forall|j: int| #[trigger] live(d4, j) <==> live(d, j) by {
        assert(live(d4, j) <==> live(d1, j));
        if d1 != d {
            assert(j == id || (live(d1, j) <==> live(d, j)));
        }
    }
    assert forall|j: int| j != 0 && j != id && live(d1, j) implies #[trigger] same_file(
        d1,
        d4,
        j,
    ) by {
        assert(same_file(d1, d2, j));
        assert(same_file(d2, d4, j));
    }
    assert forall|j: int| j != 0 && j != id && live(d, j) implies #[trigger] same_file(d, d4, j) by {
        assert(live(d4, j));
        assert(live(d1, j));
        assert(same_file(d1, d4, j));
        if d1 != d {
            assert(same_file(d, d1, j));
        }
    }
    lemma_tree_unlink(d1, d4, k);
}

/// A directory with nothing in it, and no other inode.
pub proof fn lemma_fresh_tree(d: Seq<Seq<u8>>)
    requires
        disk_ok(d),
        inode(d, 0).kind == DiskInodeType::Directory,
        inode(d, 0).size == 0,
        forall|id: int| #[trigger] live(d, id) <==> id == 0,
    ensures
        tree_ok(d),
        entries(d, 0) == Seq::<EntryModel>::empty(),
{
    reveal(file);
    reveal(entries);
    assert(live(d, 0));
    assert(file(d, 0) =~= Seq::<u8>::empty());
    assert(entries(d, 0) =~= Seq::<EntryModel>::empty());
}

} // verus!
